//! Parsing the locate-table text: one `TICKER,LOCATE` record per line.
//!
//! The table file is ASCII text, newline-terminated. Each line names a
//! ticker and its session locate code in decimal. Only the rows whose
//! ticker is among the requested names populate the decoder's symbol
//! table.

use vstd::prelude::*;
use crate::decode::MsgStream;
use crate::source::ByteSource;

verus! {

/// Whether `b` is an ASCII decimal digit.
pub open spec fn is_digit(b: u8) -> bool {
    48 <= b <= 57
}

/// Whether every byte of `s` is an ASCII decimal digit.
pub open spec fn all_digits(s: Seq<u8>) -> bool {
    forall|k: int| 0 <= k < s.len() ==> is_digit(#[trigger] s[k])
}

/// The decimal value of a digit string (most significant first).
pub open spec fn dec_value(s: Seq<u8>) -> int
    decreases s.len(),
{
    if s.len() == 0 {
        0
    } else {
        dec_value(s.drop_last()) * 10 + (s.last() - 48)
    }
}

/// The position of the first `b` at or after `from`, if any.
pub open spec fn spec_find(s: Seq<u8>, from: int, b: u8) -> Option<int>
    decreases s.len() - from,
    when 0 <= from <= s.len()
{
    if from >= s.len() {
        None
    } else if s[from] == b {
        Some(from)
    } else {
        spec_find(s, from + 1, b)
    }
}

/// What a found position means: it holds `b`, nothing before it (at or
/// after `from`) does, and `None` means no position does.
pub proof fn lemma_spec_find(s: Seq<u8>, from: int, b: u8)
    requires
        0 <= from <= s.len(),
    ensures
        spec_find(s, from, b) matches Some(j) ==> from <= j < s.len() && s[j] == b && (forall|k: int|
            from <= k < j ==> s[k] != b),
        spec_find(s, from, b) is None ==> forall|k: int| from <= k < s.len() ==> s[k] != b,
    decreases s.len() - from,
{
    if from < s.len() && s[from] != b {
        lemma_spec_find(s, from + 1, b);
    }
}

/// One parsed locate record: the ticker and the ticker's locate code.
///
/// A line parses when it has a comma, the field after that comma (up to a
/// second comma or the end of the line) is one or more decimal digits, and
/// their value fits in sixteen bits. Anything else is no record.
pub open spec fn spec_parse_locate_line(s: Seq<u8>) -> Option<(Seq<u8>, u16)> {
    match spec_find(s, 0, 44) {
        None => None,
        Some(i) => {
            let tick = s.take(i);
            let j = match spec_find(s, i + 1, 44) {
                Some(j) => j,
                None => s.len() as int,
            };
            let digits = s.subrange(i + 1, j);
            if digits.len() > 0 && all_digits(digits) && dec_value(digits) <= u16::MAX {
                Some((tick, dec_value(digits) as u16))
            } else {
                None
            }
        },
    }
}

/// The text split at newlines, without a trailing empty line when the text
/// ends in a newline.
pub open spec fn spec_lines(s: Seq<u8>, from: int) -> Seq<Seq<u8>>
    decreases s.len() - from,
    when 0 <= from <= s.len()
    via spec_lines_dec
{
    if from >= s.len() {
        Seq::empty()
    } else {
        match spec_find(s, from, 10) {
            Some(j) => seq![s.subrange(from, j)] + spec_lines(s, j + 1),
            None => seq![s.subrange(from, s.len() as int)],
        }
    }
}

#[via_fn]
proof fn spec_lines_dec(s: Seq<u8>, from: int) {
    lemma_spec_find(s, from, 10);
}

/// The views of a sequence of byte vectors.
pub open spec fn views_of(v: Seq<Vec<u8>>) -> Seq<Seq<u8>> {
    Seq::new(v.len(), |i: int| v[i]@)
}

/// The symbol table built from the locate text: every line that parses to
/// a record whose ticker is among `names` puts its locate code in the
/// table, later lines winning ties.
pub open spec fn spec_load_locates(
    m0: Map<u16, Seq<u8>>,
    lines: Seq<Seq<u8>>,
    names: Seq<Seq<u8>>,
) -> Map<u16, Seq<u8>>
    decreases lines.len(),
{
    if lines.len() == 0 {
        m0
    } else {
        let prev = spec_load_locates(m0, lines.drop_last(), names);
        match spec_parse_locate_line(lines.last()) {
            Some(rec) => if names.contains(rec.0) {
                prev.insert(rec.1, rec.0)
            } else {
                prev
            },
            None => prev,
        }
    }
}

/// The position of the first `b` at or after `from`, if any.
pub fn find_byte(s: &Vec<u8>, from: usize, b: u8) -> (r: Option<usize>)
    requires
        from <= s@.len(),
    ensures
        match r {
            Some(j) => Some(j as int) == spec_find(s@, from as int, b),
            None => spec_find(s@, from as int, b) is None,
        },
{
    let mut i = from;
    while i < s.len()
        invariant
            from <= i <= s@.len(),
            spec_find(s@, from as int, b) == spec_find(s@, i as int, b),
        decreases s@.len() - i,
    {
        if s[i] == b {
            return Some(i);
        }
        i = i + 1;
    }
    None
}

/// The decimal value of a digit string, if that is what the bytes are and
/// the value fits in sixteen bits.
pub fn parse_locate_u16(digits: &Vec<u8>) -> (r: Option<u16>)
    ensures
        match r {
            Some(v) => {
                &&& digits@.len() > 0
                &&& all_digits(digits@)
                &&& v as int == dec_value(digits@)
            },
            None => digits@.len() == 0 || !all_digits(digits@) || dec_value(digits@) > u16::MAX,
        },
{
    if digits.len() == 0 {
        return None;
    }
    let mut v: u16 = 0;
    let mut i: usize = 0;
    while i < digits.len()
        invariant
            i <= digits@.len(),
            forall|k: int| 0 <= k < i ==> is_digit(#[trigger] digits@[k]),
            v as int == dec_value(digits@.take(i as int)),
        decreases digits@.len() - i,
    {
        let b = digits[i];
        if b < 48 || b > 57 {
            proof {
                assert(!is_digit(digits@[i as int]));
            }
            return None;
        }
        let w = (v as u32) * 10 + ((b - 48) as u32);
        if w > 65535 {
            proof {
                if all_digits(digits@) {
                    lemma_dec_value_grows(digits@, i as int);
                }
            }
            return None;
        }
        v = w as u16;
        proof {
            assert(digits@.take(i + 1).drop_last() =~= digits@.take(i as int));
            assert(digits@.take(i + 1).last() == digits@[i as int]);
        }
        i = i + 1;
    }
    proof {
        assert(digits@.take(digits@.len() as int) =~= digits@);
    }
    Some(v)
}

/// A digit string's value dominates the value of any of its prefixes
/// (digits only extend a number rightward).
proof fn lemma_dec_value_grows(s: Seq<u8>, i: int)
    requires
        0 <= i < s.len(),
        all_digits(s),
        dec_value(s.take(i)) * 10 + (s[i] - 48) > u16::MAX,
    ensures
        dec_value(s) > u16::MAX,
    decreases s.len() - i,
{
    lemma_dec_value_nonneg(s.take(i));
    if i == s.len() - 1 {
        assert(s.take(i + 1) =~= s);
        assert(s.drop_last() =~= s.take(i));
    } else {
        assert(s.take(i + 1).drop_last() =~= s.take(i));
        assert(s.take(i + 1).last() == s[i]);
        lemma_dec_value_grows(s, i + 1);
    }
}

/// A digit string's value is nonnegative.
proof fn lemma_dec_value_nonneg(s: Seq<u8>)
    requires
        all_digits(s),
    ensures
        dec_value(s) >= 0,
    decreases s.len(),
{
    if s.len() > 0 {
        lemma_dec_value_nonneg(s.drop_last());
    }
}

/// The bytes of `s` from `a` (inclusive) to `b` (exclusive), as a fresh
/// vector.
pub fn subvec(s: &Vec<u8>, a: usize, b: usize) -> (r: Vec<u8>)
    requires
        a <= b <= s@.len(),
    ensures
        r@ == s@.subrange(a as int, b as int),
{
    let mut r: Vec<u8> = Vec::new();
    let mut i = a;
    while i < b
        invariant
            a <= i <= b <= s@.len(),
            r@ == s@.subrange(a as int, i as int),
        decreases b - i,
    {
        r.push(s[i]);
        i = i + 1;
    }
    r
}

/// Whether two byte strings hold the same bytes.
pub fn bytes_eq(a: &Vec<u8>, b: &Vec<u8>) -> (r: bool)
    ensures
        r <==> a@ == b@,
{
    if a.len() != b.len() {
        proof {
            assert(a@.len() != b@.len());
        }
        return false;
    }
    let mut i: usize = 0;
    while i < a.len()
        invariant
            a@.len() == b@.len(),
            i <= a@.len(),
            forall|k: int| 0 <= k < i ==> a@[k] == b@[k],
        decreases a@.len() - i,
    {
        if a[i] != b[i] {
            return false;
        }
        i = i + 1;
    }
    proof {
        assert(a@ =~= b@);
    }
    true
}

/// Whether `t` is among `names`.
pub fn contains_name(names: &Vec<Vec<u8>>, t: &Vec<u8>) -> (r: bool)
    ensures
        r <==> views_of(names@).contains(t@),
{
    let mut i: usize = 0;
    while i < names.len()
        invariant
            i <= names@.len(),
            forall|k: int| 0 <= k < i ==> views_of(names@)[k] != t@,
        decreases names@.len() - i,
    {
        if bytes_eq(&names[i], t) {
            proof {
                assert(views_of(names@)[i as int] == t@);
            }
            return true;
        }
        i = i + 1;
    }
    proof {
        assert forall|k: int| 0 <= k < names@.len() implies views_of(names@)[k] != t@ by {}
    }
    false
}

/// Parse one `TICKER,LOCATE` line into the ticker and its locate code.
pub fn parse_locate_line(line: &Vec<u8>) -> (r: Option<(Vec<u8>, u16)>)
    ensures
        match r {
            Some(p) => spec_parse_locate_line(line@) == Some((p.0@, p.1)),
            None => spec_parse_locate_line(line@) is None,
        },
{
    let line_len = line.len();
    let i = match find_byte(line, 0, 44) {
        Some(i) => i,
        None => {
            return None;
        },
    };
    proof {
        lemma_spec_find(line@, 0, 44);
    }
    let tick = subvec(line, 0, i);
    proof {
        lemma_spec_find(line@, i + 1, 44);
    }
    let j = match find_byte(line, i + 1, 44) {
        Some(j) => j,
        None => line_len,
    };
    let digits = subvec(line, i + 1, j);
    proof {
        assert(line@.take(i as int) =~= line@.subrange(0, i as int));
    }
    let ghost si = spec_find(line@, 0, 44)->Some_0;
    let ghost sj = (match spec_find(line@, si + 1, 44) {
        Some(j) => j,
        None => line@.len() as int,
    });
    let ghost sdg = line@.subrange(si + 1, sj);
    proof {
        assert(si == i as int);
        assert(sj == j as int);
        assert(sdg == digits@);
        assert(forall|k: int| 0 <= k < sdg.len() ==> #[trigger] sdg[k] == digits@[k]);
    }
    match parse_locate_u16(&digits) {
        Some(v) => {
            proof {
                assert(all_digits(sdg));
            }
            Some((tick, v))
        },
        None => {
            proof {
                assert(spec_parse_locate_line(line@) is None);
            }
            None
        },
    }
}

impl<R: ByteSource> MsgStream<R> {
    /// Populate the symbol table from the locate text: one `TICKER,LOCATE`
    /// record per line, keeping only the rows whose ticker is among
    /// `focused_names`. The table becomes exactly [`spec_load_locates`] of
    /// the text's lines.
    pub fn get_locate_codes(&mut self, text: &Vec<u8>, focused_names: &Vec<Vec<u8>>)
        requires
            old(self).wf(),
        ensures
            final(self).wf(),
            final(self).tickers() == spec_load_locates(
                old(self).tickers(),
                spec_lines(text@, 0),
                views_of(focused_names@),
            ),
            final(self).companies == old(self).companies,
            final(self).locates == old(self).locates,
            final(self).buffer == old(self).buffer,
            final(self).pos == old(self).pos,
            final(self).fetched == old(self).fetched,
            final(self).reader == old(self).reader,
            final(self).read_calls == old(self).read_calls,
            final(self).message_ct == old(self).message_ct,
    {
        let ghost names = views_of(focused_names@);
        let ghost tv0 = old(self).tickers();
        let ghost mut done: Seq<Seq<u8>> = Seq::empty();
        proof {
            assert(spec_lines(text@, 0) =~= done + spec_lines(text@, 0));
        }
        let tlen = text.len();
        let mut from: usize = 0;
        while from < tlen
            invariant
                self.wf(),
                tlen == text@.len(),
                from <= tlen,
                names == views_of(focused_names@),
                tv0 == old(self).tickers(),
                self.companies == old(self).companies,
                self.locates == old(self).locates,
                self.buffer == old(self).buffer,
                self.pos == old(self).pos,
                self.fetched == old(self).fetched,
                self.reader == old(self).reader,
                self.read_calls == old(self).read_calls,
                self.message_ct == old(self).message_ct,
                spec_lines(text@, 0) == done + spec_lines(text@, from as int),
                self.tickers() == spec_load_locates(tv0, done, names),
            decreases tlen - from,
        {
            let ghost from0 = from as int;
            let ghost pre_tickers = self.tickers();
            let found = find_byte(text, from, 10);
            proof {
                lemma_spec_find(text@, from as int, 10);
            }
            let line = match found {
                Some(j) => subvec(text, from, j),
                None => subvec(text, from, tlen),
            };
            let next = match found {
                Some(j) => j + 1,
                None => tlen,
            };
            let ghost lv = line@;
            proof {
                if found is Some {
                    assert(spec_lines(text@, from0) == seq![lv] + spec_lines(text@, next as int));
                } else {
                    assert(spec_lines(text@, next as int) =~= Seq::<Seq<u8>>::empty());
                    assert(spec_lines(text@, from0) =~= seq![lv] + spec_lines(
                        text@,
                        next as int,
                    ));
                }
                assert(done + spec_lines(text@, from0) =~= done.push(lv) + spec_lines(
                    text@,
                    next as int,
                ));
            }
            match parse_locate_line(&line) {
                Some(rec) => {
                    let (t, loc) = rec;
                    let ghost tname = t@;
                    if contains_name(focused_names, &t) {
                        self.insert_locate(loc, t);
                    }
                    proof {
                        assert(spec_parse_locate_line(lv) == Some((tname, loc)));
                    }
                },
                None => {},
            }
            proof {
                let done0 = done;
                done = done.push(lv);
                assert(done.drop_last() =~= done0);
                assert(done.last() == lv);
                assert(self.tickers() == spec_load_locates(tv0, done, names));
            }
            from = next;
        }
        proof {
            assert(spec_lines(text@, from as int) =~= Seq::<Seq<u8>>::empty());
            assert(done =~= spec_lines(text@, 0));
        }
    }
}

} // verus!
