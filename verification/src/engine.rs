//! The split engine's decision core: the rotation state threaded through
//! one streaming pass, the naming of output parts, and verified in-memory
//! forms of the two split modes.
//!
//! The engine streams the source once. In line mode the input unit is one
//! newline-delimited line; in byte mode it is one fill of a 1024-byte
//! read buffer, so a part boundary is measured in buffer fills (one fill
//! stands for one kilobyte, and a megabyte for 1000 fills), not in exact
//! bytes. The caller owns the actual reads and writes and asks this state,
//! once per unit, whether to rotate to the next output part first.

use vstd::prelude::*;

use vstd::arithmetic::div_mod::lemma_fundamental_div_mod_converse;
use vstd::arithmetic::mul::lemma_mul_inequality;
use vstd::math::min;

use crate::models::{ByteUnit, InvalidConfigDetail, SplitErrors};
use crate::resolver::{decimal_value, digit_value};

verus! {

/// The transient rotation state of one split run: the zero-based index of
/// the part currently written, how many input units (lines, or buffer
/// fills) that part already holds, whether any input was seen at all, and
/// whether the end of the input has been reached. Created at engine start,
/// stepped once per input unit, discarded when the run returns.
#[derive(Debug, Clone, Copy, PartialEq, Eq, Structural)]
pub struct ChunkState {
    pub part_index: u64,
    pub units_in_part: u64,
    pub saw_input: bool,
    pub reached_end: bool,
}

/// What the engine does when a read returns no bytes: report the whole
/// source empty, finish the run, or write the bytes gathered so far as
/// the last, possibly short, buffer fill and finish on the next read.
#[derive(Debug, Clone, Copy, PartialEq, Eq, Structural)]
pub enum EndOfInput {
    Empty,
    Finished,
    LastChunk,
}

impl ChunkState {
    /// The state at engine start, before any input unit is consumed.
    pub fn new() -> (s: ChunkState)
        ensures
            s == (ChunkState { part_index: 0, units_in_part: 0, saw_input: false, reached_end: false }),
    {
        ChunkState { part_index: 0, units_in_part: 0, saw_input: false, reached_end: false }
    }

    /// Steps the state for one input line, before that line is written.
    /// Returns true exactly when the current part is full, so the caller
    /// must flush and close it and open the next part first; the line
    /// then counts toward the new part.
    pub fn on_line(&mut self, line_length: u32) -> (rotate: bool)
        requires
            old(self).part_index < u64::MAX,
            old(self).units_in_part <= line_length,
        ensures
            rotate == (old(self).units_in_part == line_length),
            *final(self) == (ChunkState {
                part_index: if rotate { (old(self).part_index + 1) as u64 } else { old(self).part_index },
                units_in_part: if rotate { 1u64 } else { (old(self).units_in_part + 1) as u64 },
                saw_input: true,
                reached_end: old(self).reached_end,
            }),
    {
        self.saw_input = true;
        if self.units_in_part == line_length as u64 {
            self.part_index = self.part_index + 1;
            self.units_in_part = 1;
            true
        } else {
            self.units_in_part = self.units_in_part + 1;
            false
        }
    }

    /// Steps the state for one buffer fill, before that fill is written.
    /// Returns true exactly when the current part already holds the
    /// configured number of fills, so the caller must rotate first; the
    /// fill then counts toward the new part.
    pub fn on_fill(&mut self, fill_limit: u64) -> (rotate: bool)
        requires
            old(self).part_index < u64::MAX,
        ensures
            rotate == (old(self).units_in_part >= fill_limit),
            *final(self) == (ChunkState {
                part_index: if rotate { (old(self).part_index + 1) as u64 } else { old(self).part_index },
                units_in_part: if rotate { 1u64 } else { (old(self).units_in_part + 1) as u64 },
                saw_input: old(self).saw_input,
                reached_end: old(self).reached_end,
            }),
    {
        if self.units_in_part >= fill_limit {
            self.part_index = self.part_index + 1;
            self.units_in_part = 1;
            true
        } else {
            self.units_in_part = self.units_in_part + 1;
            false
        }
    }

    /// Records the outcome of one read call in byte mode: any read that
    /// returned at least one byte means the source was not empty.
    pub fn note_read(&mut self, n_read: usize)
        ensures
            *final(self) == (ChunkState {
                part_index: old(self).part_index,
                units_in_part: old(self).units_in_part,
                saw_input: old(self).saw_input || n_read > 0,
                reached_end: old(self).reached_end,
            }),
    {
        if n_read > 0 {
            self.saw_input = true;
        }
    }

    /// Decides what a read of zero bytes means. Only after the end of the
    /// input is confirmed may the source be reported empty; a first end of
    /// input still writes the partial buffer gathered so far, and the
    /// second one finishes the run.
    pub fn at_end_of_input(&mut self) -> (o: EndOfInput)
        ensures
            !old(self).saw_input ==> o == EndOfInput::Empty && *final(self) == *old(self),
            old(self).saw_input && old(self).reached_end ==> o == EndOfInput::Finished && *final(self)
                == *old(self),
            old(self).saw_input && !old(self).reached_end ==> o == EndOfInput::LastChunk && *final(self)
                == (ChunkState {
                part_index: old(self).part_index,
                units_in_part: old(self).units_in_part,
                saw_input: old(self).saw_input,
                reached_end: true,
            }),
    {
        if !self.saw_input {
            EndOfInput::Empty
        } else if self.reached_end {
            EndOfInput::Finished
        } else {
            self.reached_end = true;
            EndOfInput::LastChunk
        }
    }

    /// The terminal result of a line-mode pass: a source with no lines at
    /// all is reported as `EMPTY_FILE`, only after the end of the input.
    pub fn finish(&self) -> (r: Result<(), SplitErrors>)
        ensures
            self.saw_input ==> r == Ok::<(), SplitErrors>(()),
            !self.saw_input ==> r == Err::<(), SplitErrors>(SplitErrors::EMPTY_FILE),
    {
        if self.saw_input {
            Ok(())
        } else {
            Err(SplitErrors::EMPTY_FILE)
        }
    }
}

/// The configured part size in buffer fills: the byte count itself for
/// kilobytes, and 1000 times it for megabytes.
pub open spec fn fill_limit_spec(byte_length: u64, byte_unit: ByteUnit) -> int {
    match byte_unit {
        ByteUnit::KB => byte_length as int,
        ByteUnit::MB => byte_length as int * 1000,
    }
}

/// Computes the part size in buffer fills, or `None` when it does not fit
/// the engine's unsigned 64-bit counter.
pub fn fill_limit(byte_length: u64, byte_unit: ByteUnit) -> (r: Option<u64>)
    ensures
        fill_limit_spec(byte_length, byte_unit) <= u64::MAX ==> r == Some(
            fill_limit_spec(byte_length, byte_unit) as u64,
        ),
        fill_limit_spec(byte_length, byte_unit) > u64::MAX ==> r is None,
    {
    match byte_unit {
        ByteUnit::KB => Some(byte_length),
        ByteUnit::MB => byte_length.checked_mul(1000),
    }
}

/// The character writing one decimal digit.
pub open spec fn decimal_digit_char(d: int) -> char {
    if d == 0 { '0' } else if d == 1 { '1' } else if d == 2 { '2' } else if d == 3 { '3' }
    else if d == 4 { '4' } else if d == 5 { '5' } else if d == 6 { '6' } else if d == 7 { '7' }
    else if d == 8 { '8' } else { '9' }
}

/// The decimal digits of a non-negative number, most significant first,
/// without leading zeroes (a lone zero for 0).
pub open spec fn dec_digits(n: int) -> Seq<char>
    decreases n,
{
    if n < 10 {
        seq![decimal_digit_char(n)]
    } else {
        dec_digits(n / 10).push(decimal_digit_char(n % 10))
    }
}

/// One decimal digit as a string slice.
fn decimal_digit_str(d: u64) -> (r: &'static str)
    requires
        d < 10,
    ensures
        r@ == seq![decimal_digit_char(d as int)],
{
    proof {
        reveal_strlit("0");
        reveal_strlit("1");
        reveal_strlit("2");
        reveal_strlit("3");
        reveal_strlit("4");
        reveal_strlit("5");
        reveal_strlit("6");
        reveal_strlit("7");
        reveal_strlit("8");
        reveal_strlit("9");
    }
    let r = match d {
        0 => "0",
        1 => "1",
        2 => "2",
        3 => "3",
        4 => "4",
        5 => "5",
        6 => "6",
        7 => "7",
        8 => "8",
        _ => "9",
    };
    proof {
        assert(r@ =~= seq![decimal_digit_char(d as int)]);
    }
    r
}

/// Writes a number in decimal.
pub fn u64_to_string(n: u64) -> (r: String)
    ensures
        r@ == dec_digits(n as int),
    decreases n,
{
    if n < 10 {
        decimal_digit_str(n).to_owned()
    } else {
        let mut s = u64_to_string(n / 10);
        s.append(decimal_digit_str(n % 10));
        proof {
            assert(s@ =~= dec_digits(n as int));
        }
        s
    }
}

/// A decimal digit character reads back as its digit.
proof fn lemma_digit_char_value(d: int)
    requires
        0 <= d < 10,
    ensures
        digit_value(decimal_digit_char(d)) == d,
{
}

/// Writing a number in decimal and reading it back yields the number.
pub proof fn lemma_dec_digits_value(n: int)
    requires
        0 <= n,
    ensures
        decimal_value(dec_digits(n)) == n,
    decreases n,
{
    let s = dec_digits(n);
    if n < 10 {
        assert(s == seq![decimal_digit_char(n)]);
        assert(s.last() == decimal_digit_char(n));
        assert(s.drop_last() =~= Seq::<char>::empty());
        assert(decimal_value(s.drop_last()) == 0);
        lemma_digit_char_value(n);
        assert(decimal_value(s) == decimal_value(s.drop_last()) * 10 + digit_value(s.last()));
    } else {
        lemma_dec_digits_value(n / 10);
        assert(s == dec_digits(n / 10).push(decimal_digit_char(n % 10)));
        assert(s.drop_last() =~= dec_digits(n / 10));
        assert(s.last() == decimal_digit_char(n % 10));
        lemma_digit_char_value(n % 10);
        assert(decimal_value(s) == decimal_value(s.drop_last()) * 10 + digit_value(s.last()));
        assert(decimal_value(s) == (n / 10) * 10 + n % 10);
    }
}

/// The name of an output part: `part`, the zero-based part index in
/// decimal, and the additional suffix, verbatim.
pub open spec fn part_name_spec(part_index: int, suffix: Seq<char>) -> Seq<char> {
    seq!['p', 'a', 'r', 't'] + dec_digits(part_index) + suffix
}

/// Within one run, distinct part indices always name distinct files, so
/// the engine never clobbers an earlier part of the same run; and since
/// the name is a function of the index and the suffix alone, a re-run
/// with the same suffix overwrites exactly the parts of the prior run.
pub proof fn lemma_part_names_distinct(i: int, j: int, suffix: Seq<char>)
    requires
        0 <= i,
        0 <= j,
        i != j,
    ensures
        part_name_spec(i, suffix) != part_name_spec(j, suffix),
{
    let a = dec_digits(i);
    let b = dec_digits(j);
    let pa = part_name_spec(i, suffix);
    let pb = part_name_spec(j, suffix);
    assert(pa == seq!['p', 'a', 'r', 't'] + a + suffix);
    assert(pb == seq!['p', 'a', 'r', 't'] + b + suffix);
    assert(pa.len() == 4 + a.len() + suffix.len());
    assert(pb.len() == 4 + b.len() + suffix.len());
    if pa == pb {
        assert(a.len() == b.len());
        assert forall|t: int| 0 <= t < a.len() implies a[t] == b[t] by {
            assert(pa[4 + t] == a[t]);
            assert(pb[4 + t] == b[t]);
        }
        assert(a =~= b);
        lemma_dec_digits_value(i);
        lemma_dec_digits_value(j);
    }
}

/// Builds the name of an output part. The name depends on nothing but the
/// part index and the suffix, so re-running a split with the same suffix
/// writes the same names again, deterministically overwriting the prior
/// parts rather than accumulating new files.
pub fn part_file_name(part_index: u64, additional_suffix: &str) -> (r: String)
    ensures
        r@ == part_name_spec(part_index as int, additional_suffix@),
{
    let mut s = String::from_str("part");
    proof {
        reveal_strlit("part");
        assert(s@ =~= seq!['p', 'a', 'r', 't']);
    }
    let digits = u64_to_string(part_index);
    s.append(digits.as_str());
    s.append(additional_suffix);
    proof {
        assert(s@ =~= part_name_spec(part_index as int, additional_suffix@));
    }
    s
}

/// Splits lines read from the source into parts, as the streaming engine
/// writes them: the first `line_length` lines form part 0, the next
/// `line_length` lines part 1, and so on; the last part holds whatever
/// remains, between one and `line_length` lines. Concatenating the parts
/// in part-index order reproduces every input line in its original order
/// exactly once. A source with no lines at all is reported as
/// `EMPTY_FILE`, and no parts are returned for it (the streaming caller
/// has by then already created the first output file, which stays empty).
pub fn split_lines(lines: &Vec<String>, line_length: u32) -> (r: Result<Vec<Vec<String>>, SplitErrors>)
    requires
        line_length >= 1,
    ensures
        lines@.len() == 0 ==> r == Err::<Vec<Vec<String>>, SplitErrors>(SplitErrors::EMPTY_FILE),
        lines@.len() > 0 ==> {
            let l = lines.deep_view();
            let n = line_length as int;
            &&& r matches Ok(parts)
            &&& {
                let pv = parts.deep_view();
                &&& pv.len() == (l.len() - 1) / n + 1
                &&& forall|p: int|
                    0 <= p < pv.len() ==> #[trigger] pv[p] == l.subrange(
                        n * p,
                        min(n * (p + 1), l.len() as int),
                    )
                &&& pv.flatten() == l
                &&& forall|p: int| 0 <= p < pv.len() - 1 ==> #[trigger] pv[p].len() == n
                &&& 0 < pv[pv.len() - 1].len() <= n
            }
        },
{
    let ghost l = lines.deep_view();
    let ghost n = line_length as int;
    let mut st = ChunkState::new();
    let mut parts: Vec<Vec<String>> = Vec::new();
    let mut cur: Vec<String> = Vec::new();
    let mut i: usize = 0;
    while i < lines.len()
        invariant
            line_length >= 1,
            n == line_length as int,
            l == lines.deep_view(),
            l.len() == lines@.len(),
            0 <= i <= lines@.len(),
            st.part_index as int == parts@.len(),
            st.units_in_part as int == cur@.len(),
            st.saw_input == (i > 0),
            !st.reached_end,
            cur@.len() <= n,
            i > 0 ==> cur@.len() >= 1,
            i == 0 ==> parts@.len() == 0 && cur@.len() == 0,
            i as int == parts@.len() * n + cur@.len(),
            forall|p: int|
                0 <= p < parts@.len() ==> #[trigger] parts.deep_view()[p] == l.subrange(
                    n * p,
                    n * (p + 1),
                ),
            forall|p: int| 0 <= p < parts@.len() ==> #[trigger] parts.deep_view()[p].len() == n,
            cur.deep_view() == l.subrange(parts@.len() * n, i as int),
            parts.deep_view().flatten() + cur.deep_view() == l.take(i as int),
        decreases lines@.len() - i,
    {
        let ghost k = parts@.len() as int;
        proof {
            lemma_mul_inequality(1, n, k);
            assert(k <= n * k);
            assert(n * k == k * n) by (nonlinear_arith);
            assert(k <= i as int);
            assert(st.part_index < u64::MAX);
        }
        let rotate = st.on_line(line_length);
        if rotate {
            let ghost cur_dv = cur.deep_view();
            let ghost parts_dv = parts.deep_view();
            parts.push(cur);
            cur = Vec::new();
            proof {
                assert(i as int == k * n + n);
                assert(n * (k + 1) == n * k + n && (k + 1) * n == k * n + n) by (nonlinear_arith);
                assert(parts.deep_view() =~= parts_dv.push(cur_dv));
                parts_dv.lemma_flatten_push(cur_dv);
                assert(parts.deep_view()[k] == l.subrange(n * k, n * (k + 1)));
                assert(cur.deep_view() =~= Seq::<Seq<char>>::empty());
                assert(parts@.len() as int * n == i as int);
                assert(cur.deep_view() =~= l.subrange(parts@.len() * n, i as int));
            }
        }
        let ghost k2 = parts@.len() as int;
        let ghost cur_dv2 = cur.deep_view();
        let ghost parts_dv2 = parts.deep_view();
        let line = lines[i].clone();
        proof {
            assert(line@ == lines@[i as int]@);
            assert(l[i as int] == lines@[i as int]@);
        }
        cur.push(line);
        proof {
            assert(cur@.last()@ == l[i as int]);
            assert(cur.deep_view() =~= cur_dv2.push(l[i as int]));
            assert(cur.deep_view() =~= l.subrange(k2 * n, i as int + 1));
            assert(parts_dv2.flatten() + cur.deep_view() =~= l.take(i as int + 1));
        }
        i += 1;
    }
    match st.finish() {
        Err(e) => Err(e),
        Ok(()) => {
            let ghost k = parts@.len() as int;
            let ghost c = cur@.len() as int;
            let ghost cur_dv = cur.deep_view();
            let ghost parts_dv = parts.deep_view();
            parts.push(cur);
            proof {
                let len = l.len() as int;
                assert(len == k * n + c);
                assert(1 <= c <= n);
                lemma_fundamental_div_mod_converse(len - 1, n, k, c - 1);
                assert(parts.deep_view() =~= parts_dv.push(cur_dv));
                parts_dv.lemma_flatten_push(cur_dv);
                assert(l.take(len) =~= l);
                // the final part reaches the end of the input
                assert(n * (k + 1) == k * n + n && n * (k + 1) == n * k + n) by (nonlinear_arith);
                assert(min(n * (k + 1), len) == len);
                assert(parts.deep_view()[k] == l.subrange(n * k, min(n * (k + 1), len)));
                // completed parts stop short of the end of the input
                assert forall|p: int| 0 <= p < k implies #[trigger] parts.deep_view()[p]
                    == l.subrange(n * p, min(n * (p + 1), len)) by {
                    lemma_mul_inequality(p + 1, k, n);
                    assert(n * (p + 1) == (p + 1) * n) by (nonlinear_arith);
                    assert(n * (p + 1) <= k * n);
                    assert(min(n * (p + 1), len) == n * (p + 1));
                }
            }
            Ok(parts)
        },
    }
}

/// Splits the source bytes into parts as the streaming engine writes
/// them in byte mode. The input unit is one fill of the 1024-byte read
/// buffer; a part holds the configured number of fills, so part sizes
/// are exact kilobyte multiples rather than exact byte counts. The last
/// fill holds whatever remains; when the source length is an exact
/// multiple of 1024 that final fill is empty, so a part boundary falling
/// there yields one trailing empty part — the engine's documented
/// behaviour, kept as it is. Concatenating the parts in part-index order
/// reproduces the source byte for byte.
pub fn split_bytes(data: &Vec<u8>, byte_length: u64, byte_unit: ByteUnit) -> (r: Result<
    Vec<Vec<u8>>,
    SplitErrors,
>)
    requires
        byte_length >= 1,
    ensures
        fill_limit_spec(byte_length, byte_unit) > u64::MAX ==> r == Err::<Vec<Vec<u8>>, SplitErrors>(
            SplitErrors::InvalidConfig(InvalidConfigDetail::ByteCountTooLarge { byte_length }),
        ),
        fill_limit_spec(byte_length, byte_unit) <= u64::MAX && data@.len() == 0 ==> r == Err::<
            Vec<Vec<u8>>,
            SplitErrors,
        >(SplitErrors::EMPTY_FILE),
        fill_limit_spec(byte_length, byte_unit) <= u64::MAX && data@.len() > 0 ==> {
            let n = fill_limit_spec(byte_length, byte_unit);
            let len = data@.len() as int;
            &&& r matches Ok(parts)
            &&& {
                let pv = parts.deep_view();
                &&& pv.len() == (len / 1024) / n + 1
                &&& forall|p: int|
                    0 <= p < pv.len() ==> #[trigger] pv[p] == data@.subrange(
                        min(1024 * (n * p), len),
                        min(1024 * (n * (p + 1)), len),
                    )
                &&& pv.flatten() == data@
                &&& forall|p: int| 0 <= p < pv.len() - 1 ==> #[trigger] pv[p].len() == 1024 * n
            }
        },
{
    let limit: u64;
    match fill_limit(byte_length, byte_unit) {
        None => {
            return Err(
                SplitErrors::InvalidConfig(InvalidConfigDetail::ByteCountTooLarge { byte_length }),
            );
        },
        Some(v) => {
            limit = v;
        },
    }
    let ghost n = fill_limit_spec(byte_length, byte_unit);
    proof {
        lemma_mul_inequality(1, byte_length as int, 1000);
    }
    if data.len() == 0 {
        return Err(SplitErrors::EMPTY_FILE);
    }
    let len = data.len();
    let num_fills = len / 1024 + 1;
    let mut st = ChunkState::new();
    let mut parts: Vec<Vec<u8>> = Vec::new();
    let mut cur: Vec<u8> = Vec::new();
    let mut i: usize = 0;
    let mut start: usize = 0;
    while i < num_fills
        invariant
            len == data@.len(),
            0 < len,
            num_fills == len as int / 1024 + 1,
            0 <= i <= num_fills,
            limit as int == n,
            1 <= n,
            st.part_index as int == parts@.len(),
            st.units_in_part as int + n * (parts@.len() as int) == i as int,
            st.units_in_part <= limit,
            i > 0 ==> st.units_in_part >= 1,
            i == 0 ==> parts@.len() == 0 && st.units_in_part == 0,
            start as int == min(1024 * (i as int), len as int),
            cur@ == data@.subrange(min(1024 * (n * (parts@.len() as int)), len as int), start as int),
            forall|p: int|
                0 <= p < parts@.len() ==> #[trigger] parts.deep_view()[p] == data@.subrange(
                    min(1024 * (n * p), len as int),
                    min(1024 * (n * (p + 1)), len as int),
                ),
            parts.deep_view().flatten() + cur@ == data@.take(start as int),
        decreases num_fills - i,
    {
        let ghost k = parts@.len() as int;
        let ghost c = st.units_in_part as int;
        proof {
            lemma_mul_inequality(1, n, k);
        }
        let rotate = st.on_fill(limit);
        if rotate {
            let ghost cur_s = cur@;
            let ghost parts_dv = parts.deep_view();
            parts.push(cur);
            cur = Vec::new();
            proof {
                assert(n * (k + 1) == n * k + n) by (nonlinear_arith);
                assert(i as int == n * (k + 1));
                assert(parts.deep_view() =~~= parts_dv.push(cur_s));
                parts_dv.lemma_flatten_push(cur_s);
                assert(parts.deep_view()[k] == data@.subrange(
                    min(1024 * (n * k), len as int),
                    min(1024 * (n * (k + 1)), len as int),
                ));
                assert(cur@ =~= data@.subrange(
                    min(1024 * (n * (k + 1)), len as int),
                    start as int,
                ));
            }
        }
        let end: usize = if len - start >= 1024 {
            start + 1024
        } else {
            len
        };
        proof {
            assert(end as int == min(1024 * (i as int + 1), len as int));
        }
        let ghost cur0 = cur@;
        let mut j: usize = start;
        while j < end
            invariant
                start <= j <= end,
                end <= len,
                len == data@.len(),
                cur@ == cur0 + data@.subrange(start as int, j as int),
            decreases end - j,
        {
            let b = data[j];
            cur.push(b);
            proof {
                assert(cur@ =~= cur0 + data@.subrange(start as int, j as int + 1));
            }
            j += 1;
        }
        proof {
            let k2 = parts@.len() as int;
            assert(cur@ =~= data@.subrange(min(1024 * (n * k2), len as int), end as int));
            assert(data@.take(end as int) =~= data@.take(start as int) + data@.subrange(
                start as int,
                end as int,
            ));
            assert(parts.deep_view().flatten() + cur@ =~= data@.take(end as int));
        }
        i += 1;
        start = end;
    }
    let ghost k = parts@.len() as int;
    let ghost c = st.units_in_part as int;
    let ghost cur_s = cur@;
    let ghost parts_dv = parts.deep_view();
    parts.push(cur);
    proof {
        let leni = len as int;
        let q = leni / 1024;
        assert(q + 1 == n * k + c);
        assert(1 <= c <= n);
        assert(k * n == n * k) by (nonlinear_arith);
        lemma_fundamental_div_mod_converse(q, n, k, c - 1);
        assert(q / n == k);
        assert(parts.deep_view() =~~= parts_dv.push(cur_s));
        parts_dv.lemma_flatten_push(cur_s);
        assert(start as int == leni);
        assert(data@.take(leni) =~= data@);
        assert(n * (k + 1) == n * k + n) by (nonlinear_arith);
        assert(min(1024 * (n * (k + 1)), leni) == leni);
        assert(parts.deep_view()[k] == data@.subrange(
            min(1024 * (n * k), leni),
            min(1024 * (n * (k + 1)), leni),
        ));
        assert(1024 * (leni / 1024) <= leni);
        assert forall|p: int| 0 <= p < k implies #[trigger] parts.deep_view()[p].len() == 1024 * n by {
            lemma_mul_inequality(p + 1, k, n);
            assert((p + 1) * n == n * (p + 1) && k * n == n * k && n * (p + 1) == n * p + n)
                by (nonlinear_arith);
            assert(1024 * (n * (p + 1)) <= 1024 * q);
            assert(min(1024 * (n * (p + 1)), leni) == 1024 * (n * (p + 1)));
            assert(min(1024 * (n * p), leni) == 1024 * (n * p));
        }
    }
    Ok(parts)
}

/// A line as the engine writes it: the line itself with a newline
/// appended. Every written line gets one, so a source lacking a final
/// newline still ends with one on output — a deliberate, documented
/// deviation from a byte-exact copy.
pub fn line_with_newline(line: &str) -> (r: String)
    ensures
        r@ == line@ + seq!['\n'],
{
    let mut s = line.to_owned();
    s.append("\n");
    proof {
        reveal_strlit("\n");
        assert(s@ =~= line@ + seq!['\n']);
    }
    s
}

} // verus!
