//! Ordered multi-map of headers, and redaction of credential-bearing
//! entries.
//!
//! Header names compare case-insensitively (ASCII). Redaction produces a
//! fresh collection: the caller's collection, used for actual transport, is
//! never touched.

use vstd::prelude::*;

verus! {

/// ASCII lowercase of one character; characters outside `A`..`Z` pass
/// through unchanged.
pub open spec fn lower_char(c: char) -> char {
    if 65 <= c as u32 && c as u32 <= 90 {
        (((c as u32) + 32) as u8) as char
    } else {
        c
    }
}

pub open spec fn lower_seq(s: Seq<char>) -> Seq<char> {
    s.map_values(|c: char| lower_char(c))
}

/// Case-insensitive equality of two header names.
pub open spec fn name_eq(a: Seq<char>, b: Seq<char>) -> bool {
    lower_seq(a) == lower_seq(b)
}

/// The fixed set of header names whose values never reach a log sink.
pub open spec fn is_sensitive(name: Seq<char>) -> bool {
    ||| name_eq(name, "authorization"@)
    ||| name_eq(name, "proxy-authorization"@)
    ||| name_eq(name, "cookie"@)
    ||| name_eq(name, "set-cookie"@)
}

/// The marker written in place of a sensitive value.
pub open spec fn redacted_marker() -> Seq<char> {
    "[REDACTED]"@
}

fn lower_char_exec(c: char) -> (r: char)
    ensures
        r == lower_char(c),
{
    let u: u32 = c as u32;
    if 65 <= u && u <= 90 {
        ((u + 32) as u8) as char
    } else {
        c
    }
}

/// Case-insensitive comparison of two header names.
pub fn eq_ignore_case(a: &str, b: &str) -> (r: bool)
    ensures
        r == name_eq(a@, b@),
{
    let n = a.unicode_len();
    let m = b.unicode_len();
    if n != m {
        proof {
            assert(lower_seq(a@).len() != lower_seq(b@).len());
        }
        return false;
    }
    let mut i: usize = 0;
    while i < n
        invariant
            i <= n,
            n == a@.len(),
            n == b@.len(),
            forall|j: int| 0 <= j < i ==> lower_char(a@[j]) == lower_char(b@[j]),
        decreases n - i,
    {
        let ca = a.get_char(i);
        let cb = b.get_char(i);
        if lower_char_exec(ca) != lower_char_exec(cb) {
            proof {
                assert(lower_seq(a@)[i as int] != lower_seq(b@)[i as int]);
            }
            return false;
        }
        i = i + 1;
    }
    proof {
        assert(lower_seq(a@) =~= lower_seq(b@));
    }
    true
}

/// Whether a header name belongs to the fixed sensitive set, in any casing.
pub fn is_sensitive_name(name: &str) -> (r: bool)
    ensures
        r == is_sensitive(name@),
{
    if eq_ignore_case(name, "authorization") {
        true
    } else if eq_ignore_case(name, "proxy-authorization") {
        true
    } else if eq_ignore_case(name, "cookie") {
        true
    } else {
        eq_ignore_case(name, "set-cookie")
    }
}

/// One header entry: a name and one value, with the casing it was stored
/// under.
pub struct Header {
    pub name: String,
    pub value: String,
}

impl View for Header {
    type V = (Seq<char>, Seq<char>);

    open spec fn view(&self) -> (Seq<char>, Seq<char>) {
        (self.name@, self.value@)
    }
}

impl Header {
    pub fn duplicate(&self) -> (r: Header)
        ensures
            r@ == self@,
    {
        Header { name: self.name.clone(), value: self.value.clone() }
    }
}

/// An ordered multi-map of headers: entries keep their insertion order, and
/// one name may occur more than once.
pub struct HeaderCollection {
    pub entries: Vec<Header>,
}

impl View for HeaderCollection {
    type V = Seq<(Seq<char>, Seq<char>)>;

    open spec fn view(&self) -> Seq<(Seq<char>, Seq<char>)> {
        self.entries@.map_values(|h: Header| h@)
    }
}

/// Whether some entry before position `i` carries the same
/// (case-insensitive) name as the entry at `i`.
pub open spec fn earlier_same_name(s: Seq<(Seq<char>, Seq<char>)>, i: int) -> bool {
    exists|j: int| 0 <= j < i && name_eq(s[j].0, s[i].0)
}

/// What redaction makes of the entry at `i`: a sensitive entry keeps its
/// name but its value becomes the marker; any other entry passes through.
pub open spec fn entry_out(s: Seq<(Seq<char>, Seq<char>)>, i: int) -> (Seq<char>, Seq<char>) {
    if is_sensitive(s[i].0) {
        (s[i].0, redacted_marker())
    } else {
        s[i]
    }
}

/// A sensitive entry that repeats an earlier name is folded away: the name
/// keeps a single redacted value.
pub open spec fn entry_dropped(s: Seq<(Seq<char>, Seq<char>)>, i: int) -> bool {
    is_sensitive(s[i].0) && earlier_same_name(s, i)
}

pub open spec fn spec_redact_from(s: Seq<(Seq<char>, Seq<char>)>, i: int) -> Seq<
    (Seq<char>, Seq<char>),
>
    decreases s.len() - i,
{
    if i < 0 || i >= s.len() {
        Seq::empty()
    } else if entry_dropped(s, i) {
        spec_redact_from(s, i + 1)
    } else {
        seq![entry_out(s, i)] + spec_redact_from(s, i + 1)
    }
}

/// The redacted image of a header sequence: every sensitive name keeps
/// exactly one entry whose value is the marker, at the position of its
/// first occurrence; every other entry is unchanged, in order.
pub open spec fn spec_redact(s: Seq<(Seq<char>, Seq<char>)>) -> Seq<(Seq<char>, Seq<char>)> {
    spec_redact_from(s, 0)
}

pub open spec fn spec_remove_name_from(
    s: Seq<(Seq<char>, Seq<char>)>,
    name: Seq<char>,
    i: int,
) -> Seq<(Seq<char>, Seq<char>)>
    decreases s.len() - i,
{
    if i < 0 || i >= s.len() {
        Seq::empty()
    } else if name_eq(s[i].0, name) {
        spec_remove_name_from(s, name, i + 1)
    } else {
        seq![s[i]] + spec_remove_name_from(s, name, i + 1)
    }
}

/// The sequence with every entry of the given (case-insensitive) name
/// removed, order otherwise kept.
pub open spec fn spec_remove_name(s: Seq<(Seq<char>, Seq<char>)>, name: Seq<char>) -> Seq<
    (Seq<char>, Seq<char>),
> {
    spec_remove_name_from(s, name, 0)
}

/// The image of setting `name` to a single `value`: all old entries of that
/// name removed, the new entry appended last.
pub open spec fn spec_set_header(
    s: Seq<(Seq<char>, Seq<char>)>,
    name: Seq<char>,
    value: Seq<char>,
) -> Seq<(Seq<char>, Seq<char>)> {
    spec_remove_name(s, name).push((name, value))
}

impl HeaderCollection {
    pub fn new() -> (r: HeaderCollection)
        ensures
            r@ == Seq::<(Seq<char>, Seq<char>)>::empty(),
    {
        let r = HeaderCollection { entries: Vec::new() };
        proof {
            assert(r@ =~= Seq::<(Seq<char>, Seq<char>)>::empty());
        }
        r
    }

    pub fn len(&self) -> (n: usize)
        ensures
            n == self@.len(),
    {
        self.entries.len()
    }

    /// Appends one entry, keeping any entries already stored under the same
    /// name.
    pub fn push(&mut self, name: String, value: String)
        ensures
            final(self)@ == old(self)@.push((name@, value@)),
    {
        self.entries.push(Header { name, value });
        proof {
            assert(self@ =~= old(self)@.push((self.entries@.last().name@,
            self.entries@.last().value@)));
        }
    }

    /// Whether some entry before position `upto` carries the given name,
    /// compared case-insensitively.
    fn contains_name_before(&self, upto: usize, name: &str) -> (r: bool)
        requires
            upto <= self@.len(),
        ensures
            r == exists|j: int| 0 <= j < upto && name_eq(self@[j].0, name@),
    {
        let mut j: usize = 0;
        while j < upto
            invariant
                j <= upto,
                upto <= self@.len(),
                self@.len() == self.entries@.len(),
                forall|k: int| 0 <= k < j ==> !name_eq(self@[k].0, name@),
            decreases upto - j,
        {
            if eq_ignore_case(self.entries[j].name.as_str(), name) {
                proof {
                    assert(name_eq(self@[j as int].0, name@));
                }
                return true;
            }
            j = j + 1;
        }
        false
    }

    /// Sets `name` to exactly one `value`: every entry already stored under
    /// that name (in any casing) is removed, and the new entry is appended.
    pub fn set(&mut self, name: String, value: String)
        ensures
            final(self)@ == spec_set_header(old(self)@, name@, value@),
    {
        let ghost s = self@;
        let mut out: Vec<Header> = Vec::new();
        let n = self.entries.len();
        let mut i: usize = 0;
        while i < n
            invariant
                i <= n,
                n == s.len(),
                s == self@,
                self@.len() == self.entries@.len(),
                out@.map_values(|h: Header| h@) + spec_remove_name_from(s, name@, i as int)
                    == spec_remove_name(s, name@),
            decreases n - i,
        {
            let ghost out_pre = out@.map_values(|h: Header| h@);
            let entry = &self.entries[i];
            if !eq_ignore_case(entry.name.as_str(), name.as_str()) {
                out.push(entry.duplicate());
                proof {
                    assert(out@.map_values(|h: Header| h@) =~= out_pre + seq![s[i as int]]);
                    assert(out_pre + (seq![s[i as int]] + spec_remove_name_from(
                        s,
                        name@,
                        i as int + 1,
                    )) =~= (out_pre + seq![s[i as int]]) + spec_remove_name_from(
                        s,
                        name@,
                        i as int + 1,
                    ));
                }
            }
            i = i + 1;
        }
        proof {
            assert(out@.map_values(|h: Header| h@) =~= out@.map_values(|h: Header| h@)
                + spec_remove_name_from(s, name@, n as int));
        }
        out.push(Header { name, value });
        self.entries = out;
        proof {
            assert(self@ =~= spec_set_header(s, self.entries@.last().name@,
            self.entries@.last().value@));
        }
    }

    /// Returns a redacted copy: sensitive names keep a single entry whose
    /// value is the marker, all other entries are unchanged. The receiver
    /// itself is never altered.
    pub fn redact(&self) -> (r: HeaderCollection)
        ensures
            r@ == spec_redact(self@),
    {
        let ghost s = self@;
        let mut out: Vec<Header> = Vec::new();
        let n = self.entries.len();
        let mut i: usize = 0;
        while i < n
            invariant
                i <= n,
                n == s.len(),
                s == self@,
                self@.len() == self.entries@.len(),
                out@.map_values(|h: Header| h@) + spec_redact_from(s, i as int) == spec_redact(
                    s,
                ),
            decreases n - i,
        {
            let ghost out_pre = out@.map_values(|h: Header| h@);
            let entry = &self.entries[i];
            if is_sensitive_name(entry.name.as_str()) {
                if !self.contains_name_before(i, entry.name.as_str()) {
                    out.push(
                        Header { name: entry.name.clone(), value: String::from_str("[REDACTED]") },
                    );
                    proof {
                        assert(out@.map_values(|h: Header| h@) =~= out_pre + seq![
                            entry_out(s, i as int),
                        ]);
                    }
                }
            } else {
                out.push(entry.duplicate());
                proof {
                    assert(out@.map_values(|h: Header| h@) =~= out_pre + seq![
                        entry_out(s, i as int),
                    ]);
                }
            }
            proof {
                if !entry_dropped(s, i as int) {
                    assert(out_pre + (seq![entry_out(s, i as int)] + spec_redact_from(
                        s,
                        i as int + 1,
                    )) =~= (out_pre + seq![entry_out(s, i as int)]) + spec_redact_from(
                        s,
                        i as int + 1,
                    ));
                }
            }
            i = i + 1;
        }
        let r = HeaderCollection { entries: out };
        proof {
            assert(r@ =~= r@ + spec_redact_from(s, n as int));
        }
        r
    }
}

proof fn lemma_remove_name_from_removes(s: Seq<(Seq<char>, Seq<char>)>, name: Seq<char>, i: int)
    requires
        0 <= i <= s.len(),
    ensures
        forall|k: int|
            0 <= k < spec_remove_name_from(s, name, i).len() ==> !name_eq(
                #[trigger] spec_remove_name_from(s, name, i)[k].0,
                name,
            ),
    decreases s.len() - i,
{
    if i < s.len() {
        lemma_remove_name_from_removes(s, name, i + 1);
        if !name_eq(s[i].0, name) {
            let out = seq![s[i]] + spec_remove_name_from(s, name, i + 1);
            assert forall|k: int| 0 <= k < out.len() implies !name_eq(out[k].0, name) by {
                if k > 0 {
                    assert(out[k] == spec_remove_name_from(s, name, i + 1)[k - 1]);
                }
            }
        }
    }
}

/// No entry of the removed name survives `spec_remove_name`.
pub proof fn lemma_remove_name_removes(s: Seq<(Seq<char>, Seq<char>)>, name: Seq<char>)
    ensures
        forall|k: int|
            0 <= k < spec_remove_name(s, name).len() ==> !name_eq(
                #[trigger] spec_remove_name(s, name)[k].0,
                name,
            ),
{
    lemma_remove_name_from_removes(s, name, 0);
}

pub open spec fn keep_plain_from(s: Seq<(Seq<char>, Seq<char>)>, i: int) -> Seq<
    (Seq<char>, Seq<char>),
>
    decreases s.len() - i,
{
    if i < 0 || i >= s.len() {
        Seq::empty()
    } else if is_sensitive(s[i].0) {
        keep_plain_from(s, i + 1)
    } else {
        seq![s[i]] + keep_plain_from(s, i + 1)
    }
}

/// The subsequence of entries whose names are not sensitive, in order.
pub open spec fn keep_plain(s: Seq<(Seq<char>, Seq<char>)>) -> Seq<(Seq<char>, Seq<char>)> {
    keep_plain_from(s, 0)
}

proof fn lemma_keep_plain_shift(e: (Seq<char>, Seq<char>), t: Seq<(Seq<char>, Seq<char>)>, i: int)
    requires
        0 <= i <= t.len(),
    ensures
        keep_plain_from(seq![e] + t, i + 1) == keep_plain_from(t, i),
    decreases t.len() - i,
{
    let u = seq![e] + t;
    if i < t.len() {
        assert(u[i + 1] == t[i]);
        lemma_keep_plain_shift(e, t, i + 1);
    }
}

proof fn lemma_keep_plain_cons(e: (Seq<char>, Seq<char>), t: Seq<(Seq<char>, Seq<char>)>)
    ensures
        is_sensitive(e.0) ==> keep_plain(seq![e] + t) == keep_plain(t),
        !is_sensitive(e.0) ==> keep_plain(seq![e] + t) == seq![e] + keep_plain(t),
{
    let u = seq![e] + t;
    assert(u[0] == e);
    lemma_keep_plain_shift(e, t, 0);
}

proof fn lemma_redact_from_plain(s: Seq<(Seq<char>, Seq<char>)>, i: int)
    requires
        0 <= i <= s.len(),
    ensures
        keep_plain(spec_redact_from(s, i)) == keep_plain_from(s, i),
    decreases s.len() - i,
{
    if i < s.len() {
        lemma_redact_from_plain(s, i + 1);
        if !entry_dropped(s, i) {
            lemma_keep_plain_cons(entry_out(s, i), spec_redact_from(s, i + 1));
        }
    }
}

/// Redaction leaves the non-sensitive entries byte-identical, in the same
/// order: filtering either side down to the non-sensitive names gives the
/// same sequence.
pub proof fn lemma_redact_preserves_plain(s: Seq<(Seq<char>, Seq<char>)>)
    ensures
        keep_plain(spec_redact(s)) == keep_plain(s),
{
    lemma_redact_from_plain(s, 0);
}

proof fn lemma_redact_from_masks(s: Seq<(Seq<char>, Seq<char>)>, i: int)
    requires
        0 <= i <= s.len(),
    ensures
        forall|k: int|
            0 <= k < spec_redact_from(s, i).len() ==> (is_sensitive(
                #[trigger] spec_redact_from(s, i)[k].0,
            ) ==> spec_redact_from(s, i)[k].1 == redacted_marker()),
    decreases s.len() - i,
{
    if i < s.len() {
        lemma_redact_from_masks(s, i + 1);
        if !entry_dropped(s, i) {
            let out = seq![entry_out(s, i)] + spec_redact_from(s, i + 1);
            assert forall|k: int|
                0 <= k < out.len() && is_sensitive(out[k].0) implies out[k].1
                == redacted_marker() by {
                if k > 0 {
                    assert(out[k] == spec_redact_from(s, i + 1)[k - 1]);
                }
            }
        }
    }
}

/// Every sensitive name left in a redacted sequence carries exactly the
/// marker as its value.
pub proof fn lemma_redact_masks_sensitive(s: Seq<(Seq<char>, Seq<char>)>)
    ensures
        forall|k: int|
            0 <= k < spec_redact(s).len() ==> (is_sensitive(#[trigger] spec_redact(s)[k].0)
                ==> spec_redact(s)[k].1 == redacted_marker()),
{
    lemma_redact_from_masks(s, 0);
}

/// Case-insensitive name equality carries over chains: two names equal to
/// a third are equal to each other, and sensitivity respects it.
pub proof fn lemma_name_eq_trans(a: Seq<char>, b: Seq<char>, c: Seq<char>)
    requires
        name_eq(a, b),
        name_eq(b, c),
    ensures
        name_eq(a, c),
{
}

proof fn lemma_first_occurrence(s: Seq<(Seq<char>, Seq<char>)>, i: int)
    requires
        0 <= i < s.len(),
    ensures
        exists|j: int|
            0 <= j <= i && name_eq(s[#[trigger] (j + 0)].0, s[i].0) && !earlier_same_name(s, j),
    decreases i,
{
    if !earlier_same_name(s, i) {
        assert(name_eq(s[i + 0].0, s[i].0) && !earlier_same_name(s, i));
    } else {
        let j0 = choose|j0: int| 0 <= j0 < i && name_eq(s[j0].0, s[i].0);
        lemma_first_occurrence(s, j0);
        let j = choose|j: int|
            0 <= j <= j0 && name_eq(s[#[trigger] (j + 0)].0, s[j0].0) && !earlier_same_name(s, j);
        lemma_name_eq_trans(s[j].0, s[j0].0, s[i].0);
        assert(name_eq(s[j + 0].0, s[i].0) && !earlier_same_name(s, j));
    }
}

proof fn lemma_redact_from_keeps_first(s: Seq<(Seq<char>, Seq<char>)>, j: int, i: int)
    requires
        0 <= j <= i < s.len(),
        is_sensitive(s[i].0),
        !earlier_same_name(s, i),
    ensures
        exists|k: int|
            0 <= k < spec_redact_from(s, j).len() && spec_redact_from(s, j)[k] == (
                s[i].0,
                redacted_marker(),
            ),
    decreases i - j,
{
    if j == i {
        assert(spec_redact_from(s, i)[0] == entry_out(s, i));
    } else {
        lemma_redact_from_keeps_first(s, j + 1, i);
        let k = choose|k: int|
            0 <= k < spec_redact_from(s, j + 1).len() && #[trigger] spec_redact_from(s, j + 1)[k]
                == (s[i].0, redacted_marker());
        if entry_dropped(s, j) {
            assert(spec_redact_from(s, j)[k] == (s[i].0, redacted_marker()));
        } else {
            assert(spec_redact_from(s, j)[k + 1] == spec_redact_from(s, j + 1)[k]);
        }
    }
}

/// Every sensitive name present in the input keeps an entry in the
/// redacted output, under the casing of its first occurrence, with the
/// marker as its value.
pub proof fn lemma_redact_keeps_sensitive(s: Seq<(Seq<char>, Seq<char>)>, i: int)
    requires
        0 <= i < s.len(),
        is_sensitive(s[i].0),
    ensures
        exists|k: int|
            0 <= k < spec_redact(s).len() && name_eq(#[trigger] spec_redact(s)[k].0, s[i].0)
                && spec_redact(s)[k].1 == redacted_marker(),
{
    lemma_first_occurrence(s, i);
    let j = choose|j: int|
        0 <= j <= i && name_eq(s[#[trigger] (j + 0)].0, s[i].0) && !earlier_same_name(s, j);
    assert(is_sensitive(s[j].0)) by {
        assert(name_eq(s[j].0, s[i].0));
    }
    lemma_redact_from_keeps_first(s, 0, j);
    let k = choose|k: int|
        0 <= k < spec_redact(s).len() && #[trigger] spec_redact(s)[k] == (
            s[j].0,
            redacted_marker(),
        );
    assert(name_eq(spec_redact(s)[k].0, s[i].0) && spec_redact(s)[k].1 == redacted_marker());
}

/// Sensitivity respects case-insensitive equality of names.
pub proof fn lemma_sensitive_respects_name_eq(a: Seq<char>, b: Seq<char>)
    requires
        name_eq(a, b),
        is_sensitive(a),
    ensures
        is_sensitive(b),
{
}

proof fn lemma_redact_from_provenance(s: Seq<(Seq<char>, Seq<char>)>, j: int, k: int)
    requires
        0 <= j <= s.len(),
        0 <= k < spec_redact_from(s, j).len(),
    ensures
        exists|i: int|
            j <= i < s.len() && !entry_dropped(s, #[trigger] (i + 0)) && spec_redact_from(s, j)[k]
                == entry_out(s, i),
    decreases s.len() - j,
{
    if entry_dropped(s, j) {
        lemma_redact_from_provenance(s, j + 1, k);
    } else if k == 0 {
        assert(!entry_dropped(s, j + 0) && spec_redact_from(s, j)[0] == entry_out(s, j));
    } else {
        lemma_redact_from_provenance(s, j + 1, k - 1);
        assert(spec_redact_from(s, j)[k] == spec_redact_from(s, j + 1)[k - 1]);
    }
}

proof fn lemma_redact_from_pair_provenance(s: Seq<(Seq<char>, Seq<char>)>, j: int, k1: int, k2: int)
    requires
        0 <= j <= s.len(),
        0 <= k1 < k2 < spec_redact_from(s, j).len(),
    ensures
        exists|i1: int, i2: int|
            j <= i1 < i2 < s.len() && !entry_dropped(s, i1) && !entry_dropped(s, i2) && (
            #[trigger] entry_out(s, i1)) == spec_redact_from(s, j)[k1] && (#[trigger] entry_out(
                s,
                i2,
            )) == spec_redact_from(s, j)[k2],
    decreases s.len() - j,
{
    if entry_dropped(s, j) {
        lemma_redact_from_pair_provenance(s, j + 1, k1, k2);
    } else if k1 == 0 {
        lemma_redact_from_provenance(s, j + 1, k2 - 1);
        let i2 = choose|i: int|
            j + 1 <= i < s.len() && !entry_dropped(s, #[trigger] (i + 0)) && spec_redact_from(
                s,
                j + 1,
            )[k2 - 1] == entry_out(s, i);
        assert(spec_redact_from(s, j)[k2] == spec_redact_from(s, j + 1)[k2 - 1]);
        assert(entry_out(s, j) == spec_redact_from(s, j)[0] && entry_out(s, i2)
            == spec_redact_from(s, j)[k2]);
    } else {
        lemma_redact_from_pair_provenance(s, j + 1, k1 - 1, k2 - 1);
        assert(spec_redact_from(s, j)[k1] == spec_redact_from(s, j + 1)[k1 - 1]);
        assert(spec_redact_from(s, j)[k2] == spec_redact_from(s, j + 1)[k2 - 1]);
    }
}

/// A redacted sequence holds at most one entry per sensitive name: the
/// collapse of repeated sensitive names to one redacted value is complete.
pub proof fn lemma_redact_no_duplicate_sensitive(s: Seq<(Seq<char>, Seq<char>)>, k1: int, k2: int)
    requires
        0 <= k1 < k2 < spec_redact(s).len(),
        is_sensitive(spec_redact(s)[k1].0),
    ensures
        !name_eq(spec_redact(s)[k1].0, spec_redact(s)[k2].0),
{
    lemma_redact_from_pair_provenance(s, 0, k1, k2);
    let (i1, i2) = choose|i1: int, i2: int|
        0 <= i1 < i2 < s.len() && !entry_dropped(s, i1) && !entry_dropped(s, i2) && (
        #[trigger] entry_out(s, i1)) == spec_redact(s)[k1] && (#[trigger] entry_out(s, i2))
            == spec_redact(s)[k2];
    if name_eq(spec_redact(s)[k1].0, spec_redact(s)[k2].0) {
        assert(spec_redact(s)[k1].0 == s[i1].0 && spec_redact(s)[k2].0 == s[i2].0);
        lemma_sensitive_respects_name_eq(s[i1].0, s[i2].0);
        assert(earlier_same_name(s, i2));
        assert(false);
    }
}

proof fn lemma_redact_from_identity(s: Seq<(Seq<char>, Seq<char>)>, i: int)
    requires
        0 <= i <= s.len(),
        forall|k: int| 0 <= k < s.len() ==> !is_sensitive(#[trigger] s[k].0),
    ensures
        spec_redact_from(s, i) == s.subrange(i, s.len() as int),
    decreases s.len() - i,
{
    if i < s.len() {
        lemma_redact_from_identity(s, i + 1);
        assert(spec_redact_from(s, i) =~= s.subrange(i, s.len() as int));
    } else {
        assert(spec_redact_from(s, i) =~= s.subrange(i, s.len() as int));
    }
}

/// A sequence without any sensitive name is returned unchanged.
pub proof fn lemma_redact_identity(s: Seq<(Seq<char>, Seq<char>)>)
    requires
        forall|k: int| 0 <= k < s.len() ==> !is_sensitive(#[trigger] s[k].0),
    ensures
        spec_redact(s) == s,
{
    lemma_redact_from_identity(s, 0);
    assert(s.subrange(0, s.len() as int) =~= s);
}

} // verus!
