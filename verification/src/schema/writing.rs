//! Reading a number inverts writing it, in every base.
//!
//! Numbers are written here by dividing, least significant digit first, with digits
//! looked up in an alphabet; they are read by multiplying. The two agree.

use vstd::prelude::*;

verus! {

// ---- writing -----------------------------------------------------------

/// The digit worth `d`, in lower case.
pub open spec fn lower_digit(d: int) -> char {
    "0123456789abcdef"@[d]
}

/// The digit worth `d`, in upper case.
pub open spec fn upper_digit(d: int) -> char {
    "0123456789ABCDEF"@[d]
}

/// `n` written in `base`, in lower or in upper case, without leading zeros.
pub open spec fn written(n: int, base: int, upper: bool) -> Seq<char>
    decreases n,
{
    let last = if upper {
        upper_digit(n % base)
    } else {
        lower_digit(n % base)
    };
    if 0 < n / base < n {
        written(n / base, base, upper).push(last)
    } else {
        seq![last]
    }
}

/// Whether `digits` is `n` written in `base`, each letter in either case, after any
/// number of zeros.
pub open spec fn writes(digits: Seq<char>, n: int, base: int) -> bool
    decreases digits.len(),
{
    &&& digits.len() > 0
    &&& digits.last() == lower_digit(n % base) || digits.last() == upper_digit(n % base)
    &&& if digits.len() == 1 {
        0 <= n < base
    } else {
        writes(digits.drop_last(), n / base, base)
    }
}

/// Whether `text` is a sign, a mark that names a base, and `n` written in that base.
pub open spec fn is_spelling(
    text: Seq<char>,
    sign: Seq<char>,
    mark: Seq<char>,
    digits: Seq<char>,
    n: int,
) -> bool {
    &&& text == sign + mark + digits
    &&& sign == ""@ || sign == "+"@ || sign == "-"@
    &&& {
        ||| mark == ""@ && writes(digits, n, 10)
        ||| (mark == "0x"@ || mark == "0X"@) && writes(digits, n, 16)
        ||| (mark == "0o"@ || mark == "0O"@) && writes(digits, n, 8)
    }
}

/// Whether `text` spells the magnitude `n`, after a minus if `negative`.
pub open spec fn spells(text: Seq<char>, negative: bool, n: int) -> bool {
    exists|sign: Seq<char>, mark: Seq<char>, digits: Seq<char>| #[trigger]
        is_spelling(text, sign, mark, digits, n) && (sign == "-"@ <==> negative)
}

// ---- digits ------------------------------------------------------------

/// A character is worth `d` exactly if it is the digit `d` in one case or the other.
pub proof fn law_a_digit_is_worth_its_place(c: char, d: int)
    requires
        0 <= d < 16,
    ensures
        super::digit_value(c) == d <==> (c == lower_digit(d) || c == upper_digit(d)),
{
    reveal_strlit("0123456789abcdef");
    reveal_strlit("0123456789ABCDEF");
    if d < 8 {
        if d == 0 {
        } else if d == 1 {
        } else if d == 2 {
        } else if d == 3 {
        } else if d == 4 {
        } else if d == 5 {
        } else if d == 6 {
        } else {
            assert(d == 7);
        }
    } else if d == 8 {
    } else if d == 9 {
    } else if d == 10 {
    } else if d == 11 {
    } else if d == 12 {
    } else if d == 13 {
    } else if d == 14 {
    } else {
        assert(d == 15);
    }
}

proof fn lemma_split(n: int, q: int, d: int, base: int)
    requires
        base > 0,
        0 <= d < base,
    ensures
        n == q * base + d <==> n / base == q && n % base == d,
{
    vstd::arithmetic::div_mod::lemma_fundamental_div_mod(n, base);
    assert(base * (n / base) == (n / base) * base) by (nonlinear_arith);
    if n == q * base + d {
        vstd::arithmetic::div_mod::lemma_fundamental_div_mod_converse(n, base, q, d);
    }
}

/// A text denotes `n` in a base exactly if it is `n` written in that base.
pub proof fn law_a_run_denotes_what_it_writes(digits: Seq<char>, n: int, base: int)
    requires
        2 <= base <= 16,
    ensures
        super::number(digits, base) == Some(n) <==> writes(digits, n, base),
    decreases digits.len(),
{
    if digits.len() > 0 {
        let init = digits.drop_last();
        let last = digits.last();
        let d = super::digit_value(last);
        let q = super::run_value(init, base);
        assert(super::run_value(digits, base) == q * base + d);
        vstd::arithmetic::div_mod::lemma_mod_bound(n, base);
        law_a_digit_is_worth_its_place(last, n % base);
        if digits.len() == 1 {
            assert(q == 0);
            assert(q * base == 0) by (nonlinear_arith)
                requires
                    q == 0,
            ;
            assert(super::is_run(digits, base) <==> d < base) by {
                assert(digits[0] == last);
            }
            if 0 <= n < base {
                vstd::arithmetic::div_mod::lemma_small_mod(n as nat, base as nat);
            }
        } else {
            assert(super::is_run(digits, base) <==> super::is_run(init, base) && d < base) by {
                if super::is_run(init, base) && d < base {
                    assert forall|i: int| 0 <= i < digits.len() implies super::digit_value(
                        #[trigger] digits[i],
                    ) < base by {
                        if i < init.len() {
                            assert(init[i] == digits[i]);
                        }
                    }
                }
                if super::is_run(digits, base) {
                    assert(digits[digits.len() - 1] == last);
                    assert forall|i: int| 0 <= i < init.len() implies super::digit_value(
                        #[trigger] init[i],
                    ) < base by {
                        assert(init[i] == digits[i]);
                    }
                }
            }
            law_a_run_denotes_what_it_writes(init, n / base, base);
            if d < base {
                lemma_split(n, q, d, base);
            }
        }
    }
}

/// What is written is not below zero.
pub proof fn lemma_writes_a_magnitude(digits: Seq<char>, n: int, base: int)
    requires
        writes(digits, n, base),
        2 <= base <= 16,
    ensures
        n >= 0,
{
    law_a_run_denotes_what_it_writes(digits, n, base);
    super::lemma_run_value_bounds(digits, base);
}

/// What is written in a base is what that base writes: reading it gives the number
/// back.
pub proof fn law_a_run_reads_back(n: int, base: int, upper: bool)
    requires
        0 <= n,
        2 <= base <= 16,
    ensures
        writes(written(n, base, upper), n, base),
        super::number(written(n, base, upper), base) == Some(n),
    decreases n,
{
    lemma_written(n, base, upper);
    law_a_run_denotes_what_it_writes(written(n, base, upper), n, base);
}

proof fn lemma_written(n: int, base: int, upper: bool)
    requires
        0 <= n,
        2 <= base <= 16,
    ensures
        writes(written(n, base, upper), n, base),
    decreases n,
{
    let digits = written(n, base, upper);
    vstd::arithmetic::div_mod::lemma_mod_bound(n, base);
    vstd::arithmetic::div_mod::lemma_div_pos_is_pos(n, base);
    if n > 0 {
        vstd::arithmetic::div_mod::lemma_div_decreases(n, base);
    }
    if 0 < n / base < n {
        lemma_written(n / base, base, upper);
        assert(digits.drop_last() =~= written(n / base, base, upper));
        assert(digits.len() > 1);
    } else {
        assert(n / base == 0);
        vstd::arithmetic::div_mod::lemma_fundamental_div_mod(n, base);
    }
}

// ---- integers ----------------------------------------------------------

proof fn lemma_marks()
    ensures
        ""@ == Seq::<char>::empty(),
        "+"@ == seq!['+'],
        "-"@ == seq!['-'],
        "0x"@ == seq!['0', 'x'],
        "0X"@ == seq!['0', 'X'],
        "0o"@ == seq!['0', 'o'],
        "0O"@ == seq!['0', 'O'],
{
    reveal_strlit("");
    reveal_strlit("+");
    reveal_strlit("-");
    reveal_strlit("0x");
    reveal_strlit("0X");
    reveal_strlit("0o");
    reveal_strlit("0O");
    assert(""@ =~= Seq::<char>::empty());
    assert("+"@ =~= seq!['+']);
    assert("-"@ =~= seq!['-']);
    assert("0x"@ =~= seq!['0', 'x']);
    assert("0X"@ =~= seq!['0', 'X']);
    assert("0o"@ =~= seq!['0', 'o']);
    assert("0O"@ =~= seq!['0', 'O']);
}

/// A mark names its base, and the digits follow it.
proof fn lemma_body(mark: Seq<char>, digits: Seq<char>, n: int)
    requires
        is_spelling(mark + digits, ""@, mark, digits, n),
    ensures
        ({
            let (base, run) = super::radix_split(mark + digits);
            super::number(run, base) == Some(n)
        }),
        (mark + digits).len() > 0,
        (mark + digits)[0] != '+',
        (mark + digits)[0] != '-',
{
    lemma_marks();
    let body = mark + digits;
    if mark == ""@ {
        law_a_run_denotes_what_it_writes(digits, n, 10);
        assert(body =~= digits);
        assert(super::digit_value(digits[0]) < 10);
        if digits.len() >= 2 {
            assert(super::digit_value(digits[1]) < 10);
        }
    } else {
        let base: int = if mark == "0x"@ || mark == "0X"@ {
            16
        } else {
            8
        };
        law_a_run_denotes_what_it_writes(digits, n, base);
        assert(body.skip(2) =~= digits);
        assert(body[0] == mark[0] && body[1] == mark[1]);
    }
}

/// What a body denotes, it spells.
proof fn lemma_body_spells(body: Seq<char>, n: int) -> (mark: Seq<char>)
    requires
        ({
            let (base, run) = super::radix_split(body);
            super::number(run, base) == Some(n)
        }),
    ensures
        exists|digits: Seq<char>| body == mark + digits && #[trigger] is_spelling(
            body,
            ""@,
            mark,
            digits,
            n,
        ),
{
    lemma_marks();
    let (base, run) = super::radix_split(body);
    law_a_run_denotes_what_it_writes(run, n, base);
    let mark = body.take(body.len() - run.len());
    assert(body =~= mark + run);
    assert(body =~= ""@ + mark + run);
    if base == 10 {
        assert(mark =~= ""@);
    } else if base == 16 {
        assert(mark =~= "0x"@ || mark =~= "0X"@);
    } else {
        assert(mark =~= "0o"@ || mark =~= "0O"@);
    }
    assert(is_spelling(body, ""@, mark, run, n));
    mark
}

/// What a spelling denotes once its sign is taken off.
proof fn lemma_unsigned_part(
    text: Seq<char>,
    sign: Seq<char>,
    mark: Seq<char>,
    digits: Seq<char>,
    n: int,
)
    requires
        is_spelling(text, sign, mark, digits, n),
    ensures
        super::opens_with(text, '-') <==> sign == "-"@,
        ({
            let body = if sign == "-"@ {
                text.skip(1)
            } else {
                super::without_leading(text, '+')
            };
            let (base, run) = super::radix_split(body);
            super::number(run, base) == Some(n)
        }),
        n >= 0,
{
    lemma_marks();
    let body = mark + digits;
    assert(body =~= ""@ + mark + digits);
    assert(is_spelling(body, ""@, mark, digits, n));
    lemma_body(mark, digits, n);
    assert(text =~= sign + body);
    if sign == ""@ {
        assert(text =~= body);
    } else {
        assert(text.skip(1) =~= body);
        assert(text[0] == sign[0]);
        assert("+"@[0] != "-"@[0]);
    }
    let (base, run) = super::radix_split(body);
    super::lemma_run_value_bounds(run, base);
}

/// What is left of a text once its sign is taken off decides what the text spells.
proof fn lemma_signed_spelling(text: Seq<char>, body: Seq<char>, sign: Seq<char>, n: int)
    requires
        text == sign + body,
        sign == ""@ || sign == "+"@ || sign == "-"@,
        ({
            let (base, run) = super::radix_split(body);
            super::number(run, base) == Some(n)
        }),
    ensures
        spells(text, sign == "-"@, n),
{
    let mark = lemma_body_spells(body, n);
    let digits = choose|digits: Seq<char>|
        body == mark + digits && #[trigger] is_spelling(body, ""@, mark, digits, n);
    assert(text =~= sign + mark + digits);
    assert(is_spelling(text, sign, mark, digits, n));
}

/// A text is the signed integer `n` exactly if it spells the magnitude of `n`, after a
/// minus or not, and the magnitude fits.
pub proof fn law_a_signed_integer_is_spelled_so(text: Seq<char>, n: int)
    ensures
        super::int_value(text) == Some(n) <==> {
            ||| spells(text, false, n) && n <= i64::MAX
            ||| spells(text, true, -n) && -n <= i64::MAX
        },
{
    lemma_marks();
    let negative = super::opens_with(text, '-');
    let body = if negative {
        text.skip(1)
    } else {
        super::without_leading(text, '+')
    };
    let sign = text.take(text.len() - body.len());
    assert(text =~= sign + body);
    if negative {
        assert(sign =~= "-"@);
    } else if super::opens_with(text, '+') {
        assert(sign =~= "+"@);
        assert("+"@[0] != "-"@[0]);
    } else {
        assert(sign =~= ""@);
    }
    if super::int_value(text) == Some(n) {
        lemma_signed_spelling(
            text,
            body,
            sign,
            if negative {
                -n
            } else {
                n
            },
        );
    }
    if spells(text, false, n) && n <= i64::MAX {
        let (s, mark, digits) = choose|s: Seq<char>, mark: Seq<char>, digits: Seq<char>| #[trigger]
            is_spelling(text, s, mark, digits, n) && (s == "-"@ <==> false);
        lemma_unsigned_part(text, s, mark, digits, n);
    }
    if spells(text, true, -n) && -n <= i64::MAX {
        let (s, mark, digits) = choose|s: Seq<char>, mark: Seq<char>, digits: Seq<char>| #[trigger]
            is_spelling(text, s, mark, digits, -n) && (s == "-"@ <==> true);
        lemma_unsigned_part(text, s, mark, digits, -n);
    }
}

/// A magnitude is not below zero, and no text spells it both with a minus and without.
pub proof fn lemma_spelled_magnitude(text: Seq<char>, n: int)
    ensures
        spells(text, false, n) || spells(text, true, n) ==> n >= 0,
        !(spells(text, false, n) && spells(text, true, n)),
{
    if spells(text, false, n) {
        let (s, mark, digits) = choose|s: Seq<char>, mark: Seq<char>, digits: Seq<char>| #[trigger]
            is_spelling(text, s, mark, digits, n) && (s == "-"@ <==> false);
        lemma_unsigned_part(text, s, mark, digits, n);
    }
    if spells(text, true, n) {
        let (s, mark, digits) = choose|s: Seq<char>, mark: Seq<char>, digits: Seq<char>| #[trigger]
            is_spelling(text, s, mark, digits, n) && (s == "-"@ <==> true);
        lemma_unsigned_part(text, s, mark, digits, n);
    }
}

/// A text is the unsigned integer `n` exactly if it spells `n` without a minus, and `n`
/// fits.
pub proof fn law_an_unsigned_integer_is_spelled_so(text: Seq<char>, n: int)
    ensures
        super::uint_value(text) == Some(n) <==> spells(text, false, n) && n <= u64::MAX,
{
    lemma_marks();
    let body = super::without_leading(text, '+');
    let sign = text.take(text.len() - body.len());
    assert(text =~= sign + body);
    if super::opens_with(text, '+') {
        assert(sign =~= "+"@);
        assert("+"@[0] != "-"@[0]);
    } else {
        assert(sign =~= ""@);
        assert(""@.len() != "-"@.len());
    }
    if super::uint_value(text) == Some(n) {
        lemma_signed_spelling(text, body, sign, n);
    }
    if spells(text, false, n) && n <= u64::MAX {
        let (s, mark, digits) = choose|s: Seq<char>, mark: Seq<char>, digits: Seq<char>| #[trigger]
            is_spelling(text, s, mark, digits, n) && (s == "-"@ <==> false);
        lemma_unsigned_part(text, s, mark, digits, n);
    }
}

/// A text is the index `n` exactly if it is `n` written in decimal, after a plus or not,
/// and `n` fits.
pub proof fn law_an_index_is_written_in_decimal(text: Seq<char>, n: int)
    ensures
        super::index_value(text) == Some(n) <==> n <= usize::MAX && (writes(text, n, 10) || (
        text.len() > 0 && text[0] == '+' && writes(text.skip(1), n, 10))),
{
    law_a_run_denotes_what_it_writes(text, n, 10);
    law_a_run_denotes_what_it_writes(text.skip(1), n, 10);
    if super::opens_with(text, '+') {
        assert(super::digit_value(text[0]) == 36);
    }
}

// ---- round trips -------------------------------------------------------

/// Reading inverts writing: a number that fits, written in decimal, hexadecimal or
/// octal, in either case and with any sign, resolves to itself; one that does not fit
/// resolves to nothing.
pub proof fn law_reading_inverts_writing(n: int, upper: bool)
    requires
        0 <= n,
    ensures
        ({
            let signed = if n <= i64::MAX {
                Some(n)
            } else {
                None
            };
            let below = if n <= i64::MAX {
                Some(-n)
            } else {
                None
            };
            let unsigned = if n <= u64::MAX {
                Some(n)
            } else {
                None
            };
            forall|text: Seq<char>|
                {
                    ||| text == written(n, 10, upper)
                    ||| text == "0x"@ + written(n, 16, upper)
                    ||| text == "0X"@ + written(n, 16, upper)
                    ||| text == "0o"@ + written(n, 8, upper)
                    ||| text == "0O"@ + written(n, 8, upper)
                } ==> {
                    &&& #[trigger] super::int_value(text) == signed
                    &&& super::int_value("+"@ + text) == signed
                    &&& super::int_value("-"@ + text) == below
                    &&& super::uint_value(text) == unsigned
                    &&& super::uint_value("+"@ + text) == unsigned
                    &&& super::uint_value("-"@ + text) is None
                }
        }),
{
    assert forall|text: Seq<char>|
        {
            ||| text == written(n, 10, upper)
            ||| text == "0x"@ + written(n, 16, upper)
            ||| text == "0X"@ + written(n, 16, upper)
            ||| text == "0o"@ + written(n, 8, upper)
            ||| text == "0O"@ + written(n, 8, upper)
        } implies {
        &&& #[trigger] super::int_value(text) == (if n <= i64::MAX {
            Some(n)
        } else {
            None
        })
        &&& super::int_value("+"@ + text) == (if n <= i64::MAX {
            Some(n)
        } else {
            None
        })
        &&& super::int_value("-"@ + text) == (if n <= i64::MAX {
            Some(-n)
        } else {
            None
        })
        &&& super::uint_value(text) == (if n <= u64::MAX {
            Some(n)
        } else {
            None
        })
        &&& super::uint_value("+"@ + text) == (if n <= u64::MAX {
            Some(n)
        } else {
            None
        })
        &&& super::uint_value("-"@ + text) is None
    } by {
        lemma_marks();
        lemma_written(n, 10, upper);
        lemma_written(n, 16, upper);
        lemma_written(n, 8, upper);
        if text == "0x"@ + written(n, 16, upper) {
            lemma_reads_back("0x"@, written(n, 16, upper), n);
        } else if text == "0X"@ + written(n, 16, upper) {
            lemma_reads_back("0X"@, written(n, 16, upper), n);
        } else if text == "0o"@ + written(n, 8, upper) {
            lemma_reads_back("0o"@, written(n, 8, upper), n);
        } else if text == "0O"@ + written(n, 8, upper) {
            lemma_reads_back("0O"@, written(n, 8, upper), n);
        } else {
            assert(""@ + text =~= text);
            lemma_reads_back(""@, text, n);
        }
    }
}

proof fn lemma_reads_back(mark: Seq<char>, digits: Seq<char>, n: int)
    requires
        is_spelling(mark + digits, ""@, mark, digits, n),
    ensures
        ({
            let text = mark + digits;
            &&& super::int_value(text) == (if n <= i64::MAX {
                Some(n)
            } else {
                None
            })
            &&& super::int_value("+"@ + text) == (if n <= i64::MAX {
                Some(n)
            } else {
                None
            })
            &&& super::int_value("-"@ + text) == (if n <= i64::MAX {
                Some(-n)
            } else {
                None
            })
            &&& super::uint_value(text) == (if n <= u64::MAX {
                Some(n)
            } else {
                None
            })
            &&& super::uint_value("+"@ + text) == (if n <= u64::MAX {
                Some(n)
            } else {
                None
            })
            &&& super::uint_value("-"@ + text) is None
        }),
{
    lemma_marks();
    let text = mark + digits;
    lemma_body(mark, digits, n);
    assert(("+"@ + text)[0] == '+');
    assert(("-"@ + text)[0] == '-');
    assert(("+"@ + text).skip(1) =~= text);
    assert(("-"@ + text).skip(1) =~= text);
}

// ---- decimal text ------------------------------------------------------

/// Decimal text is the number written in base ten.
pub proof fn law_decimal_text_is_base_ten(n: int, upper: bool)
    requires
        0 <= n,
    ensures
        crate::text::decimal(n) == written(n, 10, upper),
    decreases n,
{
    reveal_strlit("0123456789abcdef");
    reveal_strlit("0123456789ABCDEF");
    let d = n % 10;
    assert(crate::text::digit_char(d) == lower_digit(d)) by {
        if d < 5 {
            if d == 0 {
            } else if d == 1 {
            } else if d == 2 {
            } else if d == 3 {
            } else {
            }
        } else if d == 5 {
        } else if d == 6 {
        } else if d == 7 {
        } else if d == 8 {
        } else {
        }
    }
    assert(lower_digit(d) == upper_digit(d)) by {
        if d < 5 {
            if d == 0 {
            } else if d == 1 {
            } else if d == 2 {
            } else if d == 3 {
            } else {
            }
        } else if d == 5 {
        } else if d == 6 {
        } else if d == 7 {
        } else if d == 8 {
        } else {
        }
    }
    if n >= 10 {
        law_decimal_text_is_base_ten(n / 10, upper);
    } else {
        assert(n % 10 == n);
    }
}

/// The decimal text of a number resolves to that number, as does its negative.
pub proof fn law_decimal_text_reads_back(n: int)
    ensures
        super::int_value(crate::text::signed_decimal(n)) == (if -i64::MAX <= n <= i64::MAX {
            Some(n)
        } else {
            None
        }),
        n >= 0 ==> super::uint_value(crate::text::decimal(n)) == (if n <= u64::MAX {
            Some(n)
        } else {
            None
        }),
        n >= 0 ==> super::index_value(crate::text::decimal(n)) == (if n <= usize::MAX {
            Some(n)
        } else {
            None
        }),
{
    let m = if n < 0 {
        -n
    } else {
        n
    };
    law_decimal_text_is_base_ten(m, false);
    lemma_written(m, 10, false);
    lemma_marks();
    let text = written(m, 10, false);
    assert(""@ + text =~= text);
    assert(""@ + ""@ + text =~= text);
    assert(is_spelling(text, ""@, ""@, text, m));
    lemma_reads_back(""@, text, m);
    assert(seq!['-'] + text =~= crate::text::signed_decimal(-m) || m == 0);
    law_an_index_is_written_in_decimal(text, m);
    law_a_run_denotes_what_it_writes(text, m, 10);
    assert(super::digit_value(text[0]) < 10);
}

} // verus!
