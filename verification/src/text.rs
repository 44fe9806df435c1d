//! Text helpers shared by every module that renders or reads a message:
//! decimal numbers, whitespace collapsing, and digit parsing. Each one is
//! stated over `Seq<char>` so the messages built from them can be specified
//! exactly.

use vstd::prelude::*;
use vstd::string::*;

verus! {

/// `String::push`: appends one character.
#[verifier::external_body]
pub(crate) fn push_char(s: &mut String, c: char)
    ensures
        final(s)@ == old(s)@.push(c),
{
    s.push(c);
}

/// Character-wise equality of two string slices.
pub fn same(a: &str, b: &str) -> (r: bool)
    ensures
        r == (a@ == b@),
{
    let x = a.to_owned();
    let y = b.to_owned();
    x == y
}

/// A string holding exactly the characters of `s`.
pub fn owned(s: &str) -> (r: String)
    ensures
        r@ == s@,
{
    s.to_owned()
}

/// The characters of `s`, in order.
pub fn chars_of(s: &str) -> (r: Vec<char>)
    ensures
        r@ == s@,
{
    let mut out: Vec<char> = Vec::new();
    for c in it: s.chars()
        invariant
            it.seq() == s@,
            out@ == s@.take(it.index() as int),
    {
        out.push(c);
        assert(out@ =~= s@.take(it.index() + 1));
    }
    assert(out@ =~= s@);
    out
}

// ---------- decimal numbers ----------

pub open spec fn digit_char(d: nat) -> char {
    ((48 + d) as u32) as char
}

/// The decimal spelling of `n`, most significant digit first, no padding.
pub open spec fn decimal(n: nat) -> Seq<char>
    decreases n,
{
    if n < 10 {
        seq![digit_char(n)]
    } else {
        decimal(n / 10).push(digit_char(n % 10))
    }
}

fn digit(d: u64) -> (c: char)
    requires
        d < 10,
    ensures
        c == digit_char(d as nat),
{
    let b: u8 = (48 + d) as u8;
    b as char
}

/// Appends the decimal spelling of `n` to `s`.
pub fn push_decimal(s: &mut String, n: u64)
    ensures
        final(s)@ == old(s)@ + decimal(n as nat),
    decreases n,
{
    if n < 10 {
        push_char(s, digit(n));
        assert(decimal(n as nat) =~= seq![digit_char(n as nat)]);
    } else {
        push_decimal(s, n / 10);
        push_char(s, digit(n % 10));
    }
}

// ---------- whitespace ----------

/// Unicode `White_Space`, the property `char::is_whitespace` tests.
pub open spec fn is_ws(c: char) -> bool {
    let u = c as u32;
    ||| 0x9 <= u <= 0xD
    ||| u == 0x20
    ||| u == 0x85
    ||| u == 0xA0
    ||| u == 0x1680
    ||| 0x2000 <= u <= 0x200A
    ||| u == 0x2028
    ||| u == 0x2029
    ||| u == 0x202F
    ||| u == 0x205F
    ||| u == 0x3000
}

pub fn is_whitespace(c: char) -> (r: bool)
    ensures
        r == is_ws(c),
{
    let u = c as u32;
    (0x9 <= u && u <= 0xD) || u == 0x20 || u == 0x85 || u == 0xA0 || u == 0x1680 || (0x2000 <= u
        && u <= 0x200A) || u == 0x2028 || u == 0x2029 || u == 0x202F || u == 0x205F || u == 0x3000
}

/// The maximal runs of non-whitespace characters of `s`, in order
/// (what `str::split_whitespace` yields).
pub open spec fn words(s: Seq<char>) -> Seq<Seq<char>>
    decreases s.len(),
{
    if s.len() == 0 {
        seq![]
    } else {
        let init = s.drop_last();
        let c = s.last();
        let w = words(init);
        if is_ws(c) {
            w
        } else if init.len() == 0 || is_ws(init.last()) {
            w.push(seq![c])
        } else {
            w.update(w.len() - 1, w.last().push(c))
        }
    }
}

/// The pieces of `ws` with one `sep` between neighbours.
pub open spec fn join(ws: Seq<Seq<char>>, sep: char) -> Seq<char>
    decreases ws.len(),
{
    if ws.len() == 0 {
        seq![]
    } else if ws.len() == 1 {
        ws[0]
    } else {
        join(ws.drop_last(), sep).push(sep) + ws.last()
    }
}

/// `s` with every run of whitespace turned into one space and none left at
/// either end.
pub open spec fn collapse_ws(s: Seq<char>) -> Seq<char> {
    join(words(s), ' ')
}

proof fn lemma_join_extend_last(ws: Seq<Seq<char>>, sep: char, c: char)
    requires
        ws.len() > 0,
    ensures
        join(ws.update(ws.len() - 1, ws.last().push(c)), sep) == join(ws, sep).push(c),
{
    let u = ws.update(ws.len() - 1, ws.last().push(c));
    if ws.len() == 1 {
        assert(u[0] == ws[0].push(c));
    } else {
        assert(u.drop_last() =~= ws.drop_last());
        assert(join(u, sep) == join(ws.drop_last(), sep).push(sep) + ws.last().push(c));
        assert(join(u, sep) =~= join(ws, sep).push(c));
    }
}

proof fn lemma_join_push(ws: Seq<Seq<char>>, sep: char, w: Seq<char>)
    ensures
        join(ws.push(w), sep) == (if ws.len() == 0 {
            w
        } else {
            join(ws, sep).push(sep) + w
        }),
{
    assert(ws.push(w).drop_last() =~= ws);
    if ws.len() == 0 {
        assert(ws.push(w)[0] == w);
    }
}

/// `str::split_whitespace` joined back with single spaces.
pub fn collapse_whitespace(s: &str) -> (r: String)
    ensures
        r@ == collapse_ws(s@),
{
    let mut out = String::new();
    let mut in_word = false;
    let mut started = false;
    let ghost mut seen: Seq<char> = Seq::empty();
    for c in it: s.chars()
        invariant
            it.seq() == s@,
            seen == s@.take(it.index() as int),
            out@ == join(words(seen), ' '),
            in_word == (seen.len() > 0 && !is_ws(seen.last())),
            in_word ==> words(seen).len() > 0,
            started == (words(seen).len() > 0),
            words(seen).len() > 0 ==> forall|i: int|
                0 <= i < words(seen).len() ==> #[trigger] words(seen)[i].len() > 0,
    {
        let ghost prev = seen;
        proof {
            seen = seen.push(c);
            assert(seen =~= s@.take(it.index() + 1));
            assert(seen.drop_last() =~= prev);
        }
        if is_whitespace(c) {
            in_word = false;
        } else {
            if in_word {
                proof {
                    lemma_join_extend_last(words(prev), ' ', c);
                    assert(words(seen) == words(prev).update(
                        words(prev).len() - 1,
                        words(prev).last().push(c),
                    ));
                }
                push_char(&mut out, c);
            } else {
                proof {
                    lemma_join_push(words(prev), ' ', seq![c]);
                    assert(words(seen) == words(prev).push(seq![c]));
                }
                if started {
                    push_char(&mut out, ' ');
                }
                push_char(&mut out, c);
                started = true;
                assert(out@ =~= join(words(seen), ' '));
            }
            in_word = true;
        }
    }
    proof {
        assert(seen =~= s@);
    }
    out
}

// ---------- digits ----------

pub open spec fn is_digit(c: char) -> bool {
    '0' <= c <= '9'
}

pub open spec fn all_digits(s: Seq<char>) -> bool {
    forall|i: int| 0 <= i < s.len() ==> #[trigger] is_digit(s[i])
}

/// The number a run of decimal digits spells.
pub open spec fn digits_value(s: Seq<char>) -> nat
    decreases s.len(),
{
    if s.len() == 0 {
        0
    } else {
        digits_value(s.drop_last()) * 10 + ((s.last() as u32) - 48) as nat
    }
}

/// What `str::parse::<u64>` gives: an optional `+`, then one or more digits
/// whose value fits.
pub open spec fn parsed_u64(s: Seq<char>) -> Option<u64> {
    let body = if s.len() > 0 && s[0] == '+' {
        s.drop_first()
    } else {
        s
    };
    if body.len() > 0 && all_digits(body) && digits_value(body) <= u64::MAX {
        Some(digits_value(body) as u64)
    } else {
        None
    }
}

/// `str::parse::<u64>`.
pub fn parse_u64(s: &str) -> (r: Option<u64>)
    ensures
        r == parsed_u64(s@),
{
    let ghost body: Seq<char> = if s@.len() > 0 && s@[0] == '+' {
        s@.drop_first()
    } else {
        s@
    };
    let mut value: u64 = 0;
    let mut any = false;
    let mut bad = false;
    let mut overflow = false;
    let mut first = true;
    let ghost mut seen: Seq<char> = Seq::empty();
    for c in it: s.chars()
        invariant
            it.seq() == s@,
            body == (if s@.len() > 0 && s@[0] == '+' {
                s@.drop_first()
            } else {
                s@
            }),
            first == (it.index() == 0),
            seen == (if it.index() > 0 && s@[0] == '+' {
                s@.subrange(1, it.index() as int)
            } else {
                s@.take(it.index() as int)
            }),
            any == (seen.len() > 0),
            !bad ==> all_digits(seen),
            bad ==> !all_digits(body),
            !bad && !overflow ==> value as nat == digits_value(seen),
            !bad && overflow ==> digits_value(seen) > u64::MAX,
            it.index() <= s@.len(),
    {
        let ghost prev = seen;
        if first && c == '+' {
            first = false;
            proof {
                assert(seen =~= s@.subrange(1, it.index() + 1));
            }
        } else {
            first = false;
            proof {
                seen = seen.push(c);
                if s@[0] == '+' {
                    assert(seen =~= s@.subrange(1, it.index() + 1));
                } else {
                    assert(seen =~= s@.take(it.index() + 1));
                }
                assert(seen.drop_last() =~= prev);
            }
            any = true;
            if !bad {
                if '0' <= c && c <= '9' {
                    let d: u64 = ((c as u32) - 48) as u64;
                    if !overflow {
                        if value > (u64::MAX - d) / 10 {
                            overflow = true;
                            assert(value * 10 + d > u64::MAX) by (nonlinear_arith)
                                requires
                                    value > (u64::MAX - d) / 10,
                                    d < 10,
                            ;
                        } else {
                            assert(value * 10 + d <= u64::MAX) by (nonlinear_arith)
                                requires
                                    value <= (u64::MAX - d) / 10,
                                    d < 10,
                            ;
                            value = value * 10 + d;
                        }
                    } else {
                        assert(digits_value(seen) >= digits_value(prev)) by (nonlinear_arith)
                            requires
                                digits_value(seen) == digits_value(prev) * 10 + d,
                        ;
                    }
                    assert(all_digits(seen)) by {
                        assert forall|i: int| 0 <= i < seen.len() implies #[trigger] is_digit(
                            seen[i],
                        ) by {
                            if i < prev.len() {
                                assert(seen[i] == prev[i]);
                            }
                        }
                    }
                } else {
                    bad = true;
                    proof {
                        let k = seen.len() - 1;
                        assert(body[k] == c) by {
                            if s@[0] == '+' {
                                assert(body[k] == s@[k + 1]);
                            }
                        }
                        assert(!is_digit(body[k]));
                    }
                }
            }
        }
    }
    proof {
        if s@.len() > 0 && s@[0] == '+' {
            assert(seen =~= body);
        } else {
            assert(seen =~= body);
        }
        if !bad && overflow {
            assert(digits_value(body) > u64::MAX);
        }
    }
    if bad || overflow || !any {
        None
    } else {
        Some(value)
    }
}

// ---------- order ----------

/// Lexicographic order by code point, the order `String`'s `Ord` gives
/// (UTF-8 keeps code point order byte by byte).
pub open spec fn lex_lt(a: Seq<char>, b: Seq<char>) -> bool
    decreases a.len(),
{
    if a.len() == 0 {
        b.len() > 0
    } else if b.len() == 0 {
        false
    } else if a[0] != b[0] {
        a[0] < b[0]
    } else {
        lex_lt(a.drop_first(), b.drop_first())
    }
}

pub proof fn lemma_lex_irreflexive(a: Seq<char>)
    ensures
        !lex_lt(a, a),
    decreases a.len(),
{
    if a.len() > 0 {
        lemma_lex_irreflexive(a.drop_first());
    }
}

pub proof fn lemma_lex_total(a: Seq<char>, b: Seq<char>)
    ensures
        a != b ==> lex_lt(a, b) || lex_lt(b, a),
        !(lex_lt(a, b) && lex_lt(b, a)),
    decreases a.len(),
{
    if a.len() > 0 && b.len() > 0 {
        if a[0] == b[0] {
            lemma_lex_total(a.drop_first(), b.drop_first());
            if a != b {
                assert(a.drop_first() != b.drop_first()) by {
                    if a.drop_first() == b.drop_first() {
                        assert(a =~= seq![a[0]] + a.drop_first());
                        assert(b =~= seq![b[0]] + b.drop_first());
                    }
                }
            }
        }
    } else if a.len() == 0 && b.len() == 0 {
        assert(a =~= b);
    }
}

pub proof fn lemma_lex_transitive(a: Seq<char>, b: Seq<char>, c: Seq<char>)
    requires
        lex_lt(a, b),
        lex_lt(b, c),
    ensures
        lex_lt(a, c),
    decreases a.len(),
{
    if a.len() > 0 && b.len() > 0 && c.len() > 0 {
        if a[0] == b[0] && b[0] == c[0] {
            lemma_lex_transitive(a.drop_first(), b.drop_first(), c.drop_first());
        }
    }
}

/// `a < b` for strings.
pub fn text_lt(a: &str, b: &str) -> (r: bool)
    ensures
        r == lex_lt(a@, b@),
{
    let x = chars_of(a);
    let y = chars_of(b);
    assert(a@.skip(0) =~= a@);
    assert(b@.skip(0) =~= b@);
    let mut k: usize = 0;
    while k < x.len() && k < y.len()
        invariant
            k <= x@.len(),
            k <= y@.len(),
            x@ == a@,
            y@ == b@,
            lex_lt(a@, b@) == lex_lt(a@.skip(k as int), b@.skip(k as int)),
        decreases x@.len() - k,
    {
        if x[k] != y[k] {
            proof {
                assert(a@.skip(k as int)[0] == x@[k as int]);
                assert(b@.skip(k as int)[0] == y@[k as int]);
            }
            return x[k] < y[k];
        }
        proof {
            assert(a@.skip(k as int).drop_first() =~= a@.skip(k + 1));
            assert(b@.skip(k as int).drop_first() =~= b@.skip(k + 1));
        }
        k = k + 1;
    }
    k == x.len() && k < y.len()
}

} // verus!
