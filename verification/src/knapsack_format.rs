//! The text format knapsack instances are stored in: instances separated by
//! a line of three dashes, each instance four lines — maximum weight,
//! comma-separated weights, comma-separated values, optimal value. The
//! parser works on the raw bytes; reading them from a file is the caller's
//! business.
use crate::errors::ProblemError;
use crate::index_set::table_sum;
use crate::knapsack::KnapsackProblem;
use vstd::prelude::*;

verus! {

/// An ASCII decimal digit.
pub open spec fn is_digit(b: u8) -> bool {
    48 <= b <= 57
}

/// Every byte is a decimal digit.
pub open spec fn all_digits(s: Seq<u8>) -> bool {
    forall|i: int| 0 <= i < s.len() ==> is_digit(#[trigger] s[i])
}

/// The number the decimal digits spell.
pub open spec fn digits_value(s: Seq<u8>) -> int
    decreases s.len(),
{
    if s.len() == 0 {
        0
    } else {
        digits_value(s.drop_last()) * 10 + (s.last() - 48)
    }
}

/// A non-empty, all-digit numeral whose value fits an unsigned machine word.
pub open spec fn valid_number(s: Seq<u8>) -> bool {
    s.len() > 0 && all_digits(s) && digits_value(s) <= u64::MAX as int
}

/// The index of the first occurrence of `sep`, or the length when absent.
pub open spec fn first_sep(s: Seq<u8>, sep: u8) -> nat
    decreases s.len(),
{
    if s.len() == 0 {
        0
    } else if s[0] == sep {
        0
    } else {
        1 + first_sep(s.drop_first(), sep)
    }
}

/// A trailing carriage return is not part of a line.
pub open spec fn strip_cr(l: Seq<u8>) -> Seq<u8> {
    if l.len() > 0 && l.last() == 13 {
        l.drop_last()
    } else {
        l
    }
}

/// The lines of a byte text: split at each newline, a final newline ends the
/// last line rather than opening an empty one, and a carriage return before
/// a newline is dropped.
pub open spec fn line_split(s: Seq<u8>) -> Seq<Seq<u8>>
    decreases s.len(),
{
    if s.len() == 0 {
        Seq::empty()
    } else {
        let j = first_sep(s, 10);
        if j < s.len() {
            seq![strip_cr(s.take(j as int))] + line_split(s.skip(j + 1 as int))
        } else {
            seq![strip_cr(s)]
        }
    }
}

/// Split at each occurrence of `sep`: one piece more than there are
/// separators, so a lone empty text is one empty piece.
pub open spec fn split_by(s: Seq<u8>, sep: u8) -> Seq<Seq<u8>>
    decreases s.len(),
{
    let j = first_sep(s, sep);
    if j < s.len() {
        seq![s.take(j as int)] + split_by(s.skip(j + 1 as int), sep)
    } else {
        seq![s]
    }
}

/// The comma-separated fields of a line.
pub open spec fn comma_split(s: Seq<u8>) -> Seq<Seq<u8>> {
    split_by(s, 44)
}

/// Every comma-separated field is a valid numeral.
pub open spec fn csv_ok(s: Seq<u8>) -> bool {
    forall|i: int| 0 <= i < comma_split(s).len() ==> valid_number(#[trigger] comma_split(s)[i])
}

/// The numbers a comma-separated line spells.
pub open spec fn csv_values(s: Seq<u8>) -> Seq<u64> {
    comma_split(s).map_values(|p: Seq<u8>| digits_value(p) as u64)
}

/// The line separating two instances.
pub open spec fn separator_line() -> Seq<u8> {
    seq![45u8, 45u8, 45u8]
}

/// The index of the first separator line, or the length when absent.
pub open spec fn first_break(ls: Seq<Seq<u8>>) -> nat
    decreases ls.len(),
{
    if ls.len() == 0 {
        0
    } else if ls[0] == separator_line() {
        0
    } else {
        1 + first_break(ls.drop_first())
    }
}

/// The groups of lines between separator lines: one group more than there
/// are separator lines.
pub open spec fn chunks_of(ls: Seq<Seq<u8>>) -> Seq<Seq<Seq<u8>>>
    decreases ls.len(),
{
    let j = first_break(ls);
    if j < ls.len() {
        seq![ls.take(j as int)] + chunks_of(ls.skip(j + 1 as int))
    } else {
        seq![ls]
    }
}

/// One instance's lines parse: at least the four expected lines are present,
/// the weight and value lines agree in field count, and the totals fit the
/// ranges the objective works in.
pub open spec fn chunk_ok(chunk: Seq<Seq<u8>>) -> bool {
    &&& chunk.len() >= 4
    &&& valid_number(chunk[0])
    &&& csv_ok(chunk[1])
    &&& csv_ok(chunk[2])
    &&& valid_number(chunk[3])
    &&& csv_values(chunk[1]).len() == csv_values(chunk[2]).len()
    &&& table_sum(csv_values(chunk[2])) <= i64::MAX as int
    &&& table_sum(csv_values(chunk[1])) <= u64::MAX as int
}

/// The problem a parsed instance describes: its maximum weight is the first
/// line's number, its weights and values are the numbers of the second and
/// third lines, and its optimal value is the fourth line's number.
pub open spec fn problem_matches_chunk(p: KnapsackProblem, chunk: Seq<Seq<u8>>) -> bool {
    &&& p.wf()
    &&& p.max_weight as int == digits_value(chunk[0])
    &&& p.all_weights@ == csv_values(chunk[1])
    &&& p.all_values@ == csv_values(chunk[2])
    &&& p.number_items == csv_values(chunk[2]).len()
    &&& p.optimal_value == Some((digits_value(chunk[3]) as u64))
}

/// The value spelled by a prefix never exceeds the value of the whole
/// numeral.
proof fn lemma_digits_prefix_le(s: Seq<u8>, j: int)
    requires
        all_digits(s),
        0 <= j <= s.len(),
    ensures
        0 <= digits_value(s.subrange(0, j)) <= digits_value(s),
    decreases s.len() - j,
{
    if j == s.len() {
        assert(s.subrange(0, j) =~= s);
        lemma_digits_nonneg(s);
    } else {
        lemma_digits_prefix_le(s, j + 1);
        let shorter = s.subrange(0, j);
        let longer = s.subrange(0, j + 1);
        assert(longer.drop_last() =~= shorter);
        assert(longer.last() == s[j]);
        lemma_digits_nonneg(shorter);
        assert(digits_value(longer) == digits_value(shorter) * 10 + (s[j] - 48));
        assert(digits_value(shorter) * 10 >= digits_value(shorter)) by (nonlinear_arith)
            requires
                digits_value(shorter) >= 0,
        ;
    }
}

proof fn lemma_digits_nonneg(s: Seq<u8>)
    requires
        all_digits(s),
    ensures
        digits_value(s) >= 0,
    decreases s.len(),
{
    if s.len() > 0 {
        assert(all_digits(s.drop_last()));
        lemma_digits_nonneg(s.drop_last());
        assert(digits_value(s.drop_last()) * 10 >= 0) by (nonlinear_arith)
            requires
                digits_value(s.drop_last()) >= 0,
        ;
    }
}

/// `first_sep` is characterized by what the bytes show: no separator before
/// `m`, and one at `m` unless `m` is the length.
proof fn lemma_first_sep_char(s: Seq<u8>, sep: u8, m: int)
    requires
        0 <= m <= s.len(),
        forall|k: int| 0 <= k < m ==> s[k] != sep,
        m < s.len() ==> s[m] == sep,
    ensures
        first_sep(s, sep) == m,
    decreases s.len(),
{
    if s.len() == 0 {
    } else if s[0] == sep {
    } else {
        let rest = s.drop_first();
        assert(forall|k: int| 0 <= k < rest.len() ==> rest[k] == s[k + 1]);
        lemma_first_sep_char(rest, sep, m - 1);
    }
}

/// `first_break` is characterized the same way over lines.
proof fn lemma_first_break_char(ls: Seq<Seq<u8>>, m: int)
    requires
        0 <= m <= ls.len(),
        forall|k: int| 0 <= k < m ==> ls[k] != separator_line(),
        m < ls.len() ==> ls[m] == separator_line(),
    ensures
        first_break(ls) == m,
    decreases ls.len(),
{
    if ls.len() == 0 {
    } else if ls[0] == separator_line() {
    } else {
        let rest = ls.drop_first();
        assert(forall|k: int| 0 <= k < rest.len() ==> rest[k] == ls[k + 1]);
        lemma_first_break_char(rest, m - 1);
    }
}

/// The views of a vector of byte lines.
pub open spec fn byte_lines_view(v: Seq<Vec<u8>>) -> Seq<Seq<u8>> {
    v.map_values(|l: Vec<u8>| l@)
}

/// An element-by-element copy of a byte vector.
fn copy_bytes(v: &Vec<u8>) -> (r: Vec<u8>)
    ensures
        r@ == v@,
{
    let mut r: Vec<u8> = Vec::new();
    let mut i: usize = 0;
    while i < v.len()
        invariant
            i <= v@.len(),
            r@ == v@.subrange(0, i as int),
        decreases v@.len() - i,
    {
        r.push(v[i]);
        proof {
            assert(r@ =~= v@.subrange(0, i + 1 as int));
        }
        i += 1;
    }
    proof {
        assert(v@.subrange(0, v@.len() as int) =~= v@);
    }
    r
}

/// Parse one decimal numeral; nothing on an empty line, a non-digit byte,
/// or a value beyond the unsigned range.
fn parse_number(line: &Vec<u8>) -> (r: Option<u64>)
    ensures
        (r is Some) <==> valid_number(line@),
        r matches Some(v) ==> v as int == digits_value(line@),
{
    if line.len() == 0 {
        return None;
    }
    let mut value: u64 = 0;
    let mut i: usize = 0;
    while i < line.len()
        invariant
            i <= line@.len(),
            all_digits(line@.subrange(0, i as int)),
            value as int == digits_value(line@.subrange(0, i as int)),
        decreases line@.len() - i,
    {
        let b = line[i];
        if b < 48 || b > 57 {
            return None;
        }
        let wide: u128 = (value as u128) * 10 + ((b - 48) as u128);
        proof {
            let prefix = line@.subrange(0, i as int);
            let grown = line@.subrange(0, (i + 1) as int);
            assert(grown.drop_last() =~= prefix);
            assert(grown.last() == line@[i as int]);
            assert(digits_value(grown) == digits_value(prefix) * 10 + (b - 48));
        }
        if wide > u64::MAX as u128 {
            // The numeral overflows: every extension of it does too.
            proof {
                if valid_number(line@) {
                    lemma_digits_prefix_le(line@, (i + 1) as int);
                }
            }
            return None;
        }
        value = wide as u64;
        i += 1;
    }
    proof {
        assert(line@.subrange(0, line@.len() as int) =~= line@);
    }
    Some(value)
}

/// Whether a line is the three-dash instance separator.
fn is_separator_line(line: &Vec<u8>) -> (r: bool)
    ensures
        r <==> line@ == separator_line(),
{
    if line.len() == 3 && line[0] == 45 && line[1] == 45 && line[2] == 45 {
        proof {
            assert(line@ =~= separator_line());
        }
        true
    } else {
        proof {
            if line@ == separator_line() {
                assert(line@.len() == 3);
                assert(line@[0] == 45 && line@[1] == 45 && line@[2] == 45);
            }
        }
        false
    }
}

/// Split a byte text into its lines.
fn split_lines(data: &Vec<u8>) -> (r: Vec<Vec<u8>>)
    ensures
        byte_lines_view(r@) == line_split(data@),
{
    let mut result: Vec<Vec<u8>> = Vec::new();
    let mut pos: usize = 0;
    proof {
        assert(byte_lines_view(result@) =~= Seq::<Seq<u8>>::empty());
        assert(data@.skip(0) =~= data@);
    }
    while pos < data.len()
        invariant
            pos <= data@.len(),
            line_split(data@) == byte_lines_view(result@) + line_split(data@.skip(pos as int)),
        decreases data@.len() - pos,
    {
        let ghost rem = data@.skip(pos as int);
        let mut j: usize = pos;
        while j < data.len() && data[j] != 10
            invariant
                pos <= j <= data@.len(),
                forall|k: int| pos <= k < j ==> data@[k] != 10,
            decreases data@.len() - j,
        {
            j += 1;
        }
        proof {
            assert(forall|k: int| 0 <= k < j - pos ==> rem[k] == data@[k + pos]);
            lemma_first_sep_char(rem, 10, j - pos);
        }
        // Copy the line, dropping a carriage return before the newline.
        let end: usize = if j > pos && data[j - 1] == 13 {
            j - 1
        } else {
            j
        };
        let mut line: Vec<u8> = Vec::new();
        let mut k: usize = pos;
        while k < end
            invariant
                pos <= k <= end,
                end <= data@.len(),
                line@ == data@.subrange(pos as int, k as int),
            decreases end - k,
        {
            line.push(data[k]);
            proof {
                assert(line@ =~= data@.subrange(pos as int, (k + 1) as int));
            }
            k += 1;
        }
        let ghost before = result@;
        result.push(line);
        proof {
            let raw = rem.take(j - pos);
            assert(raw =~= data@.subrange(pos as int, j as int));
            if j < data@.len() {
                assert(line@ =~= strip_cr(raw));
                assert(line_split(rem) == seq![strip_cr(raw)] + line_split(
                    rem.skip((j - pos + 1) as int),
                ));
                assert(rem.skip((j - pos + 1) as int) =~= data@.skip((j + 1) as int));
            } else {
                assert(rem =~= raw);
                assert(line@ =~= strip_cr(rem));
                assert(line_split(rem) == seq![strip_cr(rem)]);
            }
            assert(byte_lines_view(result@) =~= byte_lines_view(before).push(line@));
            assert(byte_lines_view(before).push(line@) =~= byte_lines_view(before) + seq![line@]);
            if j < data@.len() {
                assert(byte_lines_view(result@) + line_split(data@.skip((j + 1) as int))
                    =~= byte_lines_view(before) + line_split(rem));
            } else {
                assert(data@.skip(data@.len() as int) =~= Seq::<u8>::empty());
                assert(line_split(Seq::<u8>::empty()) =~= Seq::<Seq<u8>>::empty());
                assert(byte_lines_view(result@) + line_split(data@.skip(data@.len() as int))
                    =~= byte_lines_view(before) + line_split(rem));
            }
        }
        if j < data.len() {
            pos = j + 1;
        } else {
            pos = data.len();
        }
    }
    proof {
        assert(data@.skip(data@.len() as int) =~= Seq::<u8>::empty());
        assert(line_split(Seq::<u8>::empty()) =~= Seq::<Seq<u8>>::empty());
        assert(byte_lines_view(result@) + Seq::<Seq<u8>>::empty() =~= byte_lines_view(result@));
    }
    result
}

/// Split a line at each comma.
fn split_commas(line: &Vec<u8>) -> (r: Vec<Vec<u8>>)
    ensures
        byte_lines_view(r@) == comma_split(line@),
{
    let mut result: Vec<Vec<u8>> = Vec::new();
    let mut pos: usize = 0;
    let mut done = false;
    proof {
        assert(byte_lines_view(result@) =~= Seq::<Seq<u8>>::empty());
        assert(line@.skip(0) =~= line@);
    }
    while !done
        invariant
            pos <= line@.len(),
            !done ==> comma_split(line@) == byte_lines_view(result@) + split_by(
                line@.skip(pos as int),
                44,
            ),
            done ==> comma_split(line@) == byte_lines_view(result@),
        decreases line@.len() - pos, (if done {
            0int
        } else {
            1int
        }),
    {
        let ghost rem = line@.skip(pos as int);
        let mut j: usize = pos;
        while j < line.len() && line[j] != 44
            invariant
                pos <= j <= line@.len(),
                forall|k: int| pos <= k < j ==> line@[k] != 44,
            decreases line@.len() - j,
        {
            j += 1;
        }
        proof {
            assert(forall|k: int| 0 <= k < j - pos ==> rem[k] == line@[k + pos]);
            lemma_first_sep_char(rem, 44, j - pos);
        }
        let mut piece: Vec<u8> = Vec::new();
        let mut k: usize = pos;
        while k < j
            invariant
                pos <= k <= j,
                j <= line@.len(),
                piece@ == line@.subrange(pos as int, k as int),
            decreases j - k,
        {
            piece.push(line[k]);
            proof {
                assert(piece@ =~= line@.subrange(pos as int, (k + 1) as int));
            }
            k += 1;
        }
        let ghost before = result@;
        result.push(piece);
        proof {
            assert(piece@ =~= rem.take(j - pos));
            assert(byte_lines_view(result@) =~= byte_lines_view(before).push(piece@));
            assert(byte_lines_view(before).push(piece@) =~= byte_lines_view(before) + seq![piece@]);
            if j < line@.len() {
                assert(split_by(rem, 44) == seq![rem.take(j - pos)] + split_by(
                    rem.skip((j - pos + 1) as int),
                    44,
                ));
                assert(rem.skip((j - pos + 1) as int) =~= line@.skip((j + 1) as int));
            } else {
                assert(rem =~= rem.take(j - pos));
                assert(split_by(rem, 44) == seq![rem]);
            }
        }
        if j < line.len() {
            pos = j + 1;
        } else {
            pos = j;
            done = true;
        }
    }
    result
}

/// Parse a comma-separated line of numerals; nothing when any field is not
/// a valid numeral.
fn parse_csv(line: &Vec<u8>) -> (r: Option<Vec<u64>>)
    ensures
        (r is Some) <==> csv_ok(line@),
        r matches Some(v) ==> v@ == csv_values(line@),
{
    let pieces = split_commas(line);
    let ghost fields = comma_split(line@);
    let mut numbers: Vec<u64> = Vec::new();
    let mut i: usize = 0;
    while i < pieces.len()
        invariant
            i <= pieces@.len(),
            byte_lines_view(pieces@) == fields,
            fields == comma_split(line@),
            numbers@.len() == i,
            forall|k: int|
                0 <= k < i ==> valid_number(#[trigger] fields[k]) && numbers@[k] as int
                    == digits_value(fields[k]),
        decreases pieces@.len() - i,
    {
        match parse_number(&pieces[i]) {
            Some(n) => {
                numbers.push(n);
            },
            None => {
                proof {
                    assert(pieces@[i as int]@ == fields[i as int]);
                    assert(!valid_number(fields[i as int]));
                }
                return None;
            },
        }
        i += 1;
    }
    proof {
        assert(numbers@ =~= csv_values(line@));
    }
    Some(numbers)
}

/// Parse one instance's lines into a problem, or say which expected line is
/// missing or malformed.
fn problem_from_chunk(chunk: &Vec<Vec<u8>>) -> (r: Result<KnapsackProblem, ProblemError>)
    ensures
        (r is Ok) <==> chunk_ok(byte_lines_view(chunk@)),
        r matches Ok(p) ==> problem_matches_chunk(p, byte_lines_view(chunk@)),
        r matches Err(e) ==> e is InitializationError,
{
    if chunk.len() < 1 {
        return Err(ProblemError::InitializationError("line for maximal weight not found"));
    }
    if chunk.len() < 2 {
        return Err(ProblemError::InitializationError("line for weights not found"));
    }
    if chunk.len() < 3 {
        return Err(ProblemError::InitializationError("line for values not found"));
    }
    if chunk.len() < 4 {
        return Err(ProblemError::InitializationError("line for optimal value not found"));
    }
    let max_weight = match parse_number(&chunk[0]) {
        Some(w) => w,
        None => {
            return Err(ProblemError::InitializationError("could not parse maximum weight"));
        },
    };
    let all_weights = match parse_csv(&chunk[1]) {
        Some(ws) => ws,
        None => {
            return Err(ProblemError::InitializationError("could not parse weight value"));
        },
    };
    let all_values = match parse_csv(&chunk[2]) {
        Some(vs) => vs,
        None => {
            return Err(ProblemError::InitializationError("could not parse weight value"));
        },
    };
    let optimal_value = match parse_number(&chunk[3]) {
        Some(o) => o,
        None => {
            return Err(ProblemError::InitializationError("could not parse optimal value"));
        },
    };
    KnapsackProblem::new(&all_values, &all_weights, max_weight, Some(optimal_value))
}

/// Parse a whole text of knapsack instances: groups of lines separated by a
/// three-dash line, each group an instance. All instances parse, or the
/// first malformed one is reported.
pub fn parse_problems(data: &Vec<u8>) -> (r: Result<Vec<KnapsackProblem>, ProblemError>)
    ensures
        ({
            let chunks = chunks_of(line_split(data@));
            &&& ((r is Ok) <==> (forall|i: int|
                0 <= i < chunks.len() ==> chunk_ok(#[trigger] chunks[i])))
            &&& (r matches Ok(problems) ==> problems@.len() == chunks.len() && (forall|i: int|
                0 <= i < chunks.len() ==> problem_matches_chunk(
                    #[trigger] problems@[i],
                    chunks[i],
                )))
            &&& (r matches Err(e) ==> e is InitializationError)
        }),
{
    let lines = split_lines(data);
    let ghost all_lines = line_split(data@);
    let ghost chunks = chunks_of(all_lines);
    let mut problems: Vec<KnapsackProblem> = Vec::new();
    let ghost mut seen: int = 0;
    let mut pos: usize = 0;
    let mut done = false;
    proof {
        assert(all_lines.skip(0) =~= all_lines);
    }
    while !done
        invariant
            pos <= lines@.len(),
            byte_lines_view(lines@) == all_lines,
            all_lines == line_split(data@),
            chunks == chunks_of(all_lines),
            problems@.len() == seen,
            0 <= seen <= chunks.len(),
            forall|k: int| 0 <= k < seen ==> chunk_ok(#[trigger] chunks[k]),
            forall|k: int|
                0 <= k < seen ==> problem_matches_chunk(#[trigger] problems@[k], chunks[k]),
            !done ==> chunks == chunks.take(seen) + chunks_of(all_lines.skip(pos as int)),
            done ==> seen == chunks.len(),
        decreases lines@.len() - pos, (if done {
            0int
        } else {
            1int
        }),
    {
        let ghost rem = all_lines.skip(pos as int);
        // Scan for the next separator line.
        let mut j: usize = pos;
        while j < lines.len() && !is_separator_line(&lines[j])
            invariant
                pos <= j <= lines@.len(),
                byte_lines_view(lines@) == all_lines,
                forall|k: int| pos <= k < j ==> all_lines[k] != separator_line(),
            decreases lines@.len() - j,
        {
            j += 1;
        }
        proof {
            assert(forall|k: int| 0 <= k < j - pos ==> rem[k] == all_lines[k + pos]);
            if j < lines@.len() {
                assert(lines@[j as int]@ == all_lines[j as int]);
            }
            lemma_first_break_char(rem, j - pos);
        }
        // Copy out the instance's lines.
        let mut chunk: Vec<Vec<u8>> = Vec::new();
        let mut k: usize = pos;
        proof {
            assert(byte_lines_view(chunk@) =~= all_lines.subrange(pos as int, pos as int));
        }
        while k < j
            invariant
                pos <= k <= j,
                j <= lines@.len(),
                byte_lines_view(lines@) == all_lines,
                byte_lines_view(chunk@) == all_lines.subrange(pos as int, k as int),
            decreases j - k,
        {
            let ghost chunk_before = chunk@;
            let line_copy = copy_bytes(&lines[k]);
            chunk.push(line_copy);
            proof {
                assert(chunk@ == chunk_before.push(line_copy));
                assert(byte_lines_view(chunk_before).len() == k - pos);
                assert(chunk_before.len() == k - pos);
                assert forall|t: int|
                    0 <= t < chunk@.len() implies byte_lines_view(chunk@)[t]
                    == all_lines.subrange(pos as int, (k + 1) as int)[t] by {
                    if t < k - pos {
                        assert(chunk@[t] == chunk_before[t]);
                        assert(byte_lines_view(chunk_before)[t] == all_lines.subrange(
                            pos as int,
                            k as int,
                        )[t]);
                    } else {
                        assert(chunk@[t] == line_copy);
                        assert(line_copy@ == lines@[k as int]@);
                        assert(all_lines[k as int] == byte_lines_view(lines@)[k as int]);
                    }
                }
                assert(byte_lines_view(chunk@).len() == k + 1 - pos);
                assert(byte_lines_view(chunk@) =~= all_lines.subrange(pos as int, (k + 1) as int));
            }
            k += 1;
        }
        proof {
            assert(byte_lines_view(chunk@) =~= rem.take(j - pos));
            if j < lines@.len() {
                assert(chunks_of(rem) == seq![rem.take(j - pos)] + chunks_of(
                    rem.skip((j - pos + 1) as int),
                ));
                assert(rem.skip((j - pos + 1) as int) =~= all_lines.skip((j + 1) as int));
            } else {
                assert(rem =~= rem.take(j - pos));
                assert(chunks_of(rem) == seq![rem]);
            }
            assert(chunks_of(rem).len() >= 1);
            assert(chunks.len() >= seen + 1);
            assert(chunks[seen] == byte_lines_view(chunk@));
        }
        let parsed = match problem_from_chunk(&chunk) {
            Ok(p) => p,
            Err(e) => {
                proof {
                    assert(0 <= seen < chunks.len() && !chunk_ok(chunks[seen]));
                }
                return Err(e);
            },
        };
        problems.push(parsed);
        proof {
            seen = seen + 1;
            assert(chunks.take(seen) =~= chunks.take(seen - 1).push(chunks[seen - 1]));
            if j < lines@.len() {
                assert(chunks.take(seen) + chunks_of(all_lines.skip((j + 1) as int)) =~= chunks);
            } else {
                assert(chunks.take(seen) =~= chunks);
            }
        }
        if j < lines.len() {
            pos = j + 1;
        } else {
            pos = j;
            done = true;
        }
    }
    Ok(problems)
}

} // verus!
