//! Character-level text primitives for the persisted document: decimal
//! numbers, escaped string payloads, and small string helpers. Each renderer
//! has a matching parser and a proved round-trip lemma.

use vstd::prelude::*;
use vstd::string::*;

verus! {

// ---------------------------------------------------------------------------
// digits
// ---------------------------------------------------------------------------
/// The character for one decimal digit.
pub open spec fn spec_digit_char(d: int) -> char {
    if d == 0 {
        '0'
    } else if d == 1 {
        '1'
    } else if d == 2 {
        '2'
    } else if d == 3 {
        '3'
    } else if d == 4 {
        '4'
    } else if d == 5 {
        '5'
    } else if d == 6 {
        '6'
    } else if d == 7 {
        '7'
    } else if d == 8 {
        '8'
    } else {
        '9'
    }
}

/// The value of a digit character; 10 marks a non-digit.
pub open spec fn spec_digit_val(c: char) -> int {
    match c {
        '0' => 0,
        '1' => 1,
        '2' => 2,
        '3' => 3,
        '4' => 4,
        '5' => 5,
        '6' => 6,
        '7' => 7,
        '8' => 8,
        '9' => 9,
        _ => 10,
    }
}

pub open spec fn spec_is_digit(c: char) -> bool {
    spec_digit_val(c) < 10
}

/// The decimal rendering of a non-negative number, most significant digit
/// first, without leading zeros (except for 0 itself).
pub open spec fn spec_dec(n: int) -> Seq<char>
    decreases n,
{
    if n < 10 {
        seq![spec_digit_char(n)]
    } else {
        spec_dec(n / 10) + seq![spec_digit_char(n % 10)]
    }
}

/// Left-to-right accumulation of a digit run on top of `acc`.
pub open spec fn spec_val_left(acc: int, ds: Seq<char>) -> int
    decreases ds.len(),
{
    if ds.len() == 0 {
        acc
    } else {
        spec_val_left(acc * 10 + spec_digit_val(ds[0]), ds.drop_first())
    }
}

pub open spec fn all_digits(ds: Seq<char>) -> bool {
    forall|i: int| 0 <= i < ds.len() ==> spec_is_digit(#[trigger] ds[i])
}

pub proof fn lemma_dec_digits(n: int)
    requires
        n >= 0,
    ensures
        spec_dec(n).len() >= 1,
        all_digits(spec_dec(n)),
    decreases n,
{
    if n >= 10 {
        lemma_dec_digits(n / 10);
    }
}

/// Accumulating one more digit at the right end.
pub proof fn lemma_val_left_push(acc: int, ds: Seq<char>, c: char)
    ensures
        spec_val_left(acc, ds.push(c)) == spec_val_left(acc, ds) * 10 + spec_digit_val(c),
    decreases ds.len(),
{
    if ds.len() == 0 {
        assert(ds.push(c) =~= seq![c]);
        assert(seq![c].drop_first() =~= Seq::<char>::empty());
        assert(seq![c][0] == c);
        assert(spec_val_left(acc, seq![c]) == spec_val_left(
            acc * 10 + spec_digit_val(c),
            seq![c].drop_first(),
        ));
        assert(spec_val_left(acc * 10 + spec_digit_val(c), Seq::<char>::empty()) == acc * 10
            + spec_digit_val(c));
        assert(spec_val_left(acc, ds) == acc);
    } else {
        assert(ds.push(c)[0] == ds[0]);
        assert(ds.push(c).drop_first() =~= ds.drop_first().push(c));
        assert(spec_val_left(acc, ds.push(c)) == spec_val_left(
            acc * 10 + spec_digit_val(ds[0]),
            ds.drop_first().push(c),
        ));
        lemma_val_left_push(acc * 10 + spec_digit_val(ds[0]), ds.drop_first(), c);
    }
}

/// The value of the character for a digit is that digit.
pub proof fn lemma_digit_round(d: int)
    requires
        0 <= d <= 9,
    ensures
        spec_digit_val(spec_digit_char(d)) == d,
{
}

/// Reading back the decimal rendering gives the number.
pub proof fn lemma_val_of_dec(n: int)
    requires
        n >= 0,
    ensures
        spec_val_left(0, spec_dec(n)) == n,
    decreases n,
{
    if n < 10 {
        let c = spec_digit_char(n);
        lemma_digit_round(n);
        assert(spec_dec(n) == seq![c]);
        assert(seq![c].drop_first() =~= Seq::<char>::empty());
        assert(seq![c][0] == c);
        assert(spec_val_left(0, seq![c]) == spec_val_left(spec_digit_val(c), seq![c].drop_first()));
        assert(spec_val_left(spec_digit_val(c), Seq::<char>::empty()) == spec_digit_val(c));
    } else {
        lemma_val_of_dec(n / 10);
        lemma_digit_round(n % 10);
        lemma_val_left_push(0, spec_dec(n / 10), spec_digit_char(n % 10));
        assert(spec_dec(n) =~= spec_dec(n / 10).push(spec_digit_char(n % 10)));
    }
}

/// The accumulated value never falls below the accumulator it started from.
pub proof fn lemma_val_left_lower(acc: int, ds: Seq<char>)
    requires
        acc >= 0,
    ensures
        spec_val_left(acc, ds) >= acc,
    decreases ds.len(),
{
    if ds.len() > 0 {
        lemma_val_left_lower(acc * 10 + spec_digit_val(ds[0]), ds.drop_first());
    }
}

// ---------------------------------------------------------------------------
// number parsing
// ---------------------------------------------------------------------------
/// Consume a maximal digit run on top of `acc`, failing on `u32` overflow.
/// Returns the value and how many characters were consumed.
pub open spec fn spec_parse_digits(s: Seq<char>, acc: u32) -> Option<(u32, int)>
    decreases s.len(),
{
    if s.len() > 0 && spec_is_digit(s[0]) {
        let v = acc * 10 + spec_digit_val(s[0]);
        if v <= u32::MAX {
            match spec_parse_digits(s.drop_first(), v as u32) {
                Option::Some((n, u)) => Option::Some((n, u + 1)),
                Option::None => Option::None,
            }
        } else {
            Option::None
        }
    } else {
        Option::Some((acc, 0))
    }
}

/// Parse a decimal number: at least one digit, maximal run, no overflow.
pub open spec fn spec_parse_u32(s: Seq<char>) -> Option<(u32, int)> {
    if s.len() > 0 && spec_is_digit(s[0]) {
        spec_parse_digits(s, 0)
    } else {
        Option::None
    }
}

proof fn lemma_parse_digits_gen(acc: u32, ds: Seq<char>, rest: Seq<char>)
    requires
        all_digits(ds),
        rest.len() == 0 || !spec_is_digit(rest[0]),
        spec_val_left(acc as int, ds) <= u32::MAX,
    ensures
        spec_parse_digits(ds + rest, acc) == Option::Some(
            (spec_val_left(acc as int, ds) as u32, ds.len() as int),
        ),
    decreases ds.len(),
{
    if ds.len() == 0 {
        assert(ds + rest =~= rest);
    } else {
        let s = ds + rest;
        assert(s[0] == ds[0]);
        let v = acc as int * 10 + spec_digit_val(ds[0]);
        lemma_val_left_lower(v, ds.drop_first());
        assert(s.drop_first() =~= ds.drop_first() + rest);
        lemma_parse_digits_gen((v as u32), ds.drop_first(), rest);
    }
}

/// Round trip for numbers: the rendering of `n`, followed by anything that
/// does not begin with a digit, parses back to exactly `n`.
pub proof fn lemma_parse_u32_round(n: u32, rest: Seq<char>)
    requires
        rest.len() == 0 || !spec_is_digit(rest[0]),
    ensures
        spec_parse_u32(spec_dec(n as int) + rest) == Option::Some((n, spec_dec(n as int).len() as int)),
{
    lemma_dec_digits(n as int);
    lemma_val_of_dec(n as int);
    assert((spec_dec(n as int) + rest)[0] == spec_dec(n as int)[0]);
    lemma_parse_digits_gen(0, spec_dec(n as int), rest);
}

// ---------------------------------------------------------------------------
// escaped string payloads
// ---------------------------------------------------------------------------
/// Escape a string payload: quote and backslash get a backslash prefix,
/// every other character stands as itself.
pub open spec fn spec_escape(s: Seq<char>) -> Seq<char>
    decreases s.len(),
{
    if s.len() == 0 {
        Seq::empty()
    } else {
        let head: Seq<char> = if s[0] == '"' || s[0] == '\\' {
            seq!['\\', s[0]]
        } else {
            seq![s[0]]
        };
        head + spec_escape(s.drop_first())
    }
}

/// Escaping one more character at the right end.
pub proof fn lemma_escape_push(s: Seq<char>, c: char)
    ensures
        spec_escape(s.push(c)) == spec_escape(s) + (if c == '"' || c == '\\' {
            seq!['\\', c]
        } else {
            seq![c]
        }),
    decreases s.len(),
{
    let head: Seq<char> = if c == '"' || c == '\\' {
        seq!['\\', c]
    } else {
        seq![c]
    };
    if s.len() == 0 {
        assert(s.push(c) =~= seq![c]);
        assert(seq![c][0] == c);
        assert(seq![c].drop_first() =~= Seq::<char>::empty());
        assert(spec_escape(seq![c]) == head + spec_escape(seq![c].drop_first()));
        assert(spec_escape(Seq::<char>::empty()) =~= Seq::<char>::empty());
        assert(head + Seq::<char>::empty() =~= head);
        assert(spec_escape(s) =~= Seq::<char>::empty());
        assert(spec_escape(s) + head =~= head);
    } else {
        let h0: Seq<char> = if s[0] == '"' || s[0] == '\\' {
            seq!['\\', s[0]]
        } else {
            seq![s[0]]
        };
        let e = spec_escape(s.drop_first());
        assert(s.push(c)[0] == s[0]);
        assert(s.push(c).drop_first() =~= s.drop_first().push(c));
        assert(spec_escape(s.push(c)) == h0 + spec_escape(s.drop_first().push(c)));
        lemma_escape_push(s.drop_first(), c);
        assert(spec_escape(s.drop_first().push(c)) == e + head);
        assert(h0 + (e + head) =~= (h0 + e) + head);
        assert(spec_escape(s) == h0 + e);
    }
}

/// Consume an escaped payload up to and including its closing quote,
/// unescaping into `acc`. Returns the payload and the characters consumed.
pub open spec fn spec_parse_jstring_body(s: Seq<char>, acc: Seq<char>) -> Option<(Seq<char>, int)>
    decreases s.len(),
{
    if s.len() == 0 {
        Option::None
    } else if s[0] == '"' {
        Option::Some((acc, 1))
    } else if s[0] == '\\' {
        if s.len() >= 2 && (s[1] == '"' || s[1] == '\\') {
            match spec_parse_jstring_body(s.skip(2), acc.push(s[1])) {
                Option::Some((v, u)) => Option::Some((v, u + 2)),
                Option::None => Option::None,
            }
        } else {
            Option::None
        }
    } else {
        match spec_parse_jstring_body(s.drop_first(), acc.push(s[0])) {
            Option::Some((v, u)) => Option::Some((v, u + 1)),
            Option::None => Option::None,
        }
    }
}

/// Round trip for string payloads: an escaped payload with its closing quote
/// parses back to exactly the payload.
pub proof fn lemma_parse_jstring_round(v: Seq<char>, acc: Seq<char>, rest: Seq<char>)
    ensures
        spec_parse_jstring_body(spec_escape(v) + seq!['"'] + rest, acc) == Option::Some(
            (acc + v, spec_escape(v).len() as int + 1),
        ),
    decreases v.len(),
{
    let s = spec_escape(v) + seq!['"'] + rest;
    if v.len() == 0 {
        assert(s =~= seq!['"'] + rest);
        assert(s[0] == '"');
        assert(acc + v =~= acc);
    } else {
        let c = v[0];
        let tailv = v.drop_first();
        if c == '"' || c == '\\' {
            assert(spec_escape(v) =~= seq!['\\', c] + spec_escape(tailv));
            assert(s[0] == '\\');
            assert(s[1] == c);
            assert(s.len() >= 2);
            assert(s.skip(2) =~= spec_escape(tailv) + seq!['"'] + rest);
            lemma_parse_jstring_round(tailv, acc.push(c), rest);
            assert(acc.push(c) + tailv =~= acc + v);
        } else {
            assert(spec_escape(v) =~= seq![c] + spec_escape(tailv));
            assert(s[0] == c);
            assert(s.drop_first() =~= spec_escape(tailv) + seq!['"'] + rest);
            lemma_parse_jstring_round(tailv, acc.push(c), rest);
            assert(acc.push(c) + tailv =~= acc + v);
        }
    }
}

// ---------------------------------------------------------------------------
// executable helpers
// ---------------------------------------------------------------------------
/// Relies on `String::push`: appends exactly one character at the end.
#[verifier::external_body]
pub fn push_char(out: &mut String, c: char)
    ensures
        final(out)@ == old(out)@.push(c),
{
    out.push(c);
}

/// The characters of a string slice, in order.
pub fn str_chars(s: &str) -> (r: Vec<char>)
    ensures
        r@ == s@,
{
    let n = s.unicode_len();
    let mut r: Vec<char> = Vec::new();
    let mut i: usize = 0;
    while i < n
        invariant
            i <= n,
            n == s@.len(),
            r@ == s@.subrange(0, i as int),
        decreases n - i,
    {
        r.push(s.get_char(i));
        proof {
            assert(s@.subrange(0, i + 1 as int) =~= s@.subrange(0, i as int).push(s@[i as int]));
        }
        i = i + 1;
    }
    proof {
        assert(s@.subrange(0, n as int) =~= s@);
    }
    r
}

/// Append one decimal digit.
pub fn append_digit(out: &mut String, d: u32)
    requires
        d < 10,
    ensures
        final(out)@ == old(out)@ + seq![spec_digit_char(d as int)],
{
    proof {
        reveal_strlit("0");
        reveal_strlit("1");
        reveal_strlit("2");
        reveal_strlit("3");
        reveal_strlit("4");
        reveal_strlit("5");
        reveal_strlit("6");
        reveal_strlit("7");
        reveal_strlit("8");
        reveal_strlit("9");
    }
    if d == 0 {
        out.append("0");
    } else if d == 1 {
        out.append("1");
    } else if d == 2 {
        out.append("2");
    } else if d == 3 {
        out.append("3");
    } else if d == 4 {
        out.append("4");
    } else if d == 5 {
        out.append("5");
    } else if d == 6 {
        out.append("6");
    } else if d == 7 {
        out.append("7");
    } else if d == 8 {
        out.append("8");
    } else {
        out.append("9");
    }
    proof {
        assert(out@ =~= old(out)@ + seq![spec_digit_char(d as int)]);
    }
}

/// Append the decimal rendering of `n`.
pub fn append_u32(out: &mut String, n: u32)
    ensures
        final(out)@ == old(out)@ + spec_dec(n as int),
    decreases n,
{
    if n < 10 {
        append_digit(out, n);
    } else {
        append_u32(out, n / 10);
        append_digit(out, n % 10);
        proof {
            assert(old(out)@ + spec_dec(n as int / 10) + seq![spec_digit_char(n as int % 10)]
                =~= old(out)@ + spec_dec(n as int));
        }
    }
}

/// Append the decimal rendering of `n`.
pub fn append_usize(out: &mut String, n: usize)
    ensures
        final(out)@ == old(out)@ + spec_dec(n as int),
    decreases n,
{
    if n < 10 {
        append_digit(out, (n % 10) as u32);
    } else {
        append_usize(out, n / 10);
        append_digit(out, (n % 10) as u32);
        proof {
            assert(old(out)@ + spec_dec(n as int / 10) + seq![spec_digit_char(n as int % 10)]
                =~= old(out)@ + spec_dec(n as int));
        }
    }
}

/// Append a quoted, escaped string payload: `"` + escape(s) + `"`.
pub fn append_jstring(out: &mut String, s: &str)
    ensures
        final(out)@ == old(out)@ + seq!['"'] + spec_escape(s@) + seq!['"'],
{
    proof {
        reveal_strlit("\"");
        reveal_strlit("\\");
    }
    out.append("\"");
    let n = s.unicode_len();
    let mut i: usize = 0;
    while i < n
        invariant
            i <= n,
            n == s@.len(),
            out@ == old(out)@ + seq!['"'] + spec_escape(s@.subrange(0, i as int)),
        decreases n - i,
    {
        let c = s.get_char(i);
        proof {
            reveal_strlit("\\");
        }
        if c == '"' || c == '\\' {
            out.append("\\");
            push_char(out, c);
        } else {
            push_char(out, c);
        }
        proof {
            lemma_escape_push(s@.subrange(0, i as int), c);
            assert(s@.subrange(0, i + 1 as int) =~= s@.subrange(0, i as int).push(s@[i as int]));
            assert(out@ =~= old(out)@ + seq!['"'] + spec_escape(s@.subrange(0, i + 1 as int)));
        }
        i = i + 1;
    }
    out.append("\"");
    proof {
        assert(s@.subrange(0, n as int) =~= s@);
        assert(out@ =~= old(out)@ + seq!['"'] + spec_escape(s@) + seq!['"']);
    }
}

/// Parse a decimal number at `pos`: at least one digit, maximal run.
pub fn parse_u32_at(input: &Vec<char>, pos: usize) -> (r: Option<(u32, usize)>)
    requires
        pos <= input@.len(),
    ensures
        match r {
            Option::Some((n, p)) => pos <= p <= input@.len() && spec_parse_u32(
                input@.skip(pos as int),
            ) == Option::Some((n, p - pos)),
            Option::None => spec_parse_u32(input@.skip(pos as int)) is None,
        },
{
    let n = input.len();
    if pos >= n {
        proof {
            assert(input@.skip(pos as int).len() == 0);
        }
        return None;
    }
    proof {
        assert(input@.skip(pos as int)[0] == input@[pos as int]);
    }
    let d0 = digit_val(input[pos]);
    if d0 >= 10 {
        return None;
    }
    let mut acc: u32 = 0;
    let mut i: usize = pos;
    loop
        invariant
            pos <= i <= n,
            pos < n,
            n == input@.len(),
            spec_parse_digits(input@.skip(pos as int), 0) == (match spec_parse_digits(
                input@.skip(i as int),
                acc,
            ) {
                Option::Some((v, u)) => Option::Some((v, u + (i - pos))),
                Option::None => Option::<(u32, int)>::None,
            }),
            spec_is_digit(input@[pos as int]),
        decreases n - i,
    {
        if i >= n {
            proof {
                assert(input@.skip(i as int).len() == 0);
                assert(spec_parse_digits(input@.skip(i as int), acc) == Option::Some(
                    (acc, 0int),
                ));
                assert(spec_parse_u32(input@.skip(pos as int)) == spec_parse_digits(
                    input@.skip(pos as int),
                    0,
                ));
            }
            return Some((acc, i));
        }
        let c = input[i];
        let d = digit_val(c);
        proof {
            assert(input@.skip(i as int)[0] == input@[i as int]);
        }
        if d >= 10 {
            proof {
                assert(spec_parse_digits(input@.skip(i as int), acc) == Option::Some(
                    (acc, 0int),
                ));
                assert(spec_parse_u32(input@.skip(pos as int)) == spec_parse_digits(
                    input@.skip(pos as int),
                    0,
                ));
            }
            return Some((acc, i));
        }
        let wide: u64 = acc as u64 * 10 + d as u64;
        if wide > u32::MAX as u64 {
            proof {
                assert(spec_parse_digits(input@.skip(i as int), acc) is None);
            }
            return None;
        }
        proof {
            assert(input@.skip(i as int).drop_first() =~= input@.skip(i as int + 1));
        }
        acc = wide as u32;
        i = i + 1;
    }
}

/// The value of a digit character; 10 marks a non-digit.
pub fn digit_val(c: char) -> (r: u32)
    ensures
        r == spec_digit_val(c),
{
    match c {
        '0' => 0,
        '1' => 1,
        '2' => 2,
        '3' => 3,
        '4' => 4,
        '5' => 5,
        '6' => 6,
        '7' => 7,
        '8' => 8,
        '9' => 9,
        _ => 10,
    }
}

/// Parse an escaped payload at `pos` (after the opening quote), up to and
/// including the closing quote.
pub fn parse_jstring_at(input: &Vec<char>, pos: usize) -> (r: Option<(String, usize)>)
    requires
        pos <= input@.len(),
    ensures
        match r {
            Option::Some((v, p)) => pos <= p <= input@.len() && spec_parse_jstring_body(
                input@.skip(pos as int),
                Seq::empty(),
            ) == Option::Some((v@, p - pos)),
            Option::None => spec_parse_jstring_body(input@.skip(pos as int), Seq::empty()) is None,
        },
{
    let n = input.len();
    let mut out = String::new();
    let mut i: usize = pos;
    loop
        invariant
            pos <= i <= n,
            n == input@.len(),
            spec_parse_jstring_body(input@.skip(pos as int), Seq::empty()) == (match
                spec_parse_jstring_body(input@.skip(i as int), out@) {
                Option::Some((v, u)) => Option::Some((v, u + (i - pos))),
                Option::None => Option::None::<(Seq<char>, int)>,
            }),
        decreases n - i,
    {
        if i >= n {
            return None;
        }
        let c = input[i];
        proof {
            assert(input@.skip(i as int)[0] == input@[i as int]);
        }
        if c == '"' {
            return Some((out, i + 1));
        }
        if c == '\\' {
            if i + 1 >= n {
                return None;
            }
            let c2 = input[i + 1];
            proof {
                assert(input@.skip(i as int)[1] == input@[i + 1 as int]);
            }
            if !(c2 == '"' || c2 == '\\') {
                return None;
            }
            proof {
                assert(input@.skip(i as int).skip(2) =~= input@.skip(i + 2 as int));
            }
            push_char(&mut out, c2);
            i = i + 2;
        } else {
            proof {
                assert(input@.skip(i as int).drop_first() =~= input@.skip(i + 1 as int));
            }
            push_char(&mut out, c);
            i = i + 1;
        }
    }
}

} // verus!
