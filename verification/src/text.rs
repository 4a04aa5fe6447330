//! Small string helpers shared by the printers and parsers.

use vstd::prelude::*;

verus! {

/// Appends one character to a string.
///
/// Trusted: calls `String::push`, whose documentation says that it appends
/// the given `char` to the end of the string.
#[verifier::external_body]
pub(crate) fn push_char(s: &mut String, c: char)
    ensures
        final(s)@ == old(s)@.push(c),
{
    s.push(c)
}

/// The decimal digits of `n`, most significant first, without leading
/// zeros (`0` for zero).
pub open spec fn decimal_text(n: nat) -> Seq<char>
    decreases n,
{
    if n < 10 {
        seq![(48 + n) as char]
    } else {
        decimal_text(n / 10).push((48 + n % 10) as char)
    }
}

/// `prefix` followed by the decimal digits of `n`.
pub fn indexed_name(prefix: &str, n: u64) -> (name: String)
    ensures
        name@ == prefix@ + decimal_text(n as nat),
{
    // Digits from the least significant one on.
    let mut digits: Vec<char> = Vec::new();
    let mut rest: u64 = n;
    loop
        invariant_except_break
            digits@.len() > 0 ==> rest > 0,
            decimal_text(n as nat) == if digits@.len() == 0 { decimal_text(rest as nat) } else {
                decimal_text(rest as nat) + digits@.reverse()
            },
        ensures
            decimal_text(n as nat) == digits@.reverse(),
        decreases rest,
    {
        let d = rest % 10;
        let c = ((48 + d) as u8) as char;
        proof {
            if rest >= 10 {
                assert(decimal_text(rest as nat) == decimal_text((rest / 10) as nat).push(c));
            } else {
                assert(decimal_text(rest as nat) == seq![c]);
            }
        }
        let ghost before = digits@;
        digits.push(c);
        proof {
            assert(digits@.reverse() =~= seq![c] + before.reverse());
        }
        rest = rest / 10;
        proof {
            if rest > 0 {
                assert(decimal_text(n as nat) =~= decimal_text(rest as nat) + digits@.reverse());
            } else {
                assert(decimal_text(n as nat) =~= digits@.reverse());
            }
        }
        if rest == 0 {
            break;
        }
    }
    let mut name = String::new();
    name.append(prefix);
    let mut i: usize = digits.len();
    while i > 0
        invariant
            i <= digits@.len(),
            name@ == prefix@ + digits@.reverse().take(digits@.len() - i),
        decreases i,
    {
        i -= 1;
        let ghost before = name@;
        push_char(&mut name, digits[i]);
        proof {
            assert(digits@.reverse().take(digits@.len() - i) =~= digits@.reverse().take(digits@.len() - i - 1).push(digits@[i as int]));
        }
    }
    proof {
        assert(digits@.reverse().take(digits@.len() as int) =~= digits@.reverse());
    }
    name
}

/// The string holding the characters of `s`.
pub fn string_of(s: &str) -> (t: String)
    ensures
        t@ == s@,
{
    let mut t = String::new();
    t.append(s);
    t
}

/// Whether `s` begins with `prefix`.
pub fn starts_with(s: &String, prefix: &String) -> (begins: bool)
    ensures
        begins == (prefix@.len() <= s@.len() && s@.take(prefix@.len() as int) == prefix@),
{
    let ls = s.as_str().unicode_len();
    let lp = prefix.as_str().unicode_len();
    if lp > ls {
        return false;
    }
    let mut i: usize = 0;
    while i < lp
        invariant
            lp == prefix@.len(),
            ls == s@.len(),
            lp <= ls,
            i <= lp,
            forall|j: int| 0 <= j < i ==> s@[j] == prefix@[j],
        decreases lp - i,
    {
        if s.as_str().get_char(i) != prefix.as_str().get_char(i) {
            proof {
                assert(s@.take(lp as int)[i as int] != prefix@[i as int]);
            }
            return false;
        }
        i += 1;
    }
    proof {
        assert(s@.take(lp as int) =~= prefix@);
    }
    true
}

/// Whether `s` ends with `suffix`.
pub fn ends_with(s: &String, suffix: &String) -> (ends: bool)
    ensures
        ends == (suffix@.len() <= s@.len() && s@.skip(s@.len() - suffix@.len()) == suffix@),
{
    let ls = s.as_str().unicode_len();
    let lf = suffix.as_str().unicode_len();
    if lf > ls {
        return false;
    }
    let d = ls - lf;
    let mut i: usize = 0;
    while i < lf
        invariant
            lf == suffix@.len(),
            ls == s@.len(),
            d == ls - lf,
            i <= lf,
            forall|j: int| 0 <= j < i ==> s@[d + j] == suffix@[j],
        decreases lf - i,
    {
        if s.as_str().get_char(d + i) != suffix.as_str().get_char(i) {
            proof {
                assert(s@.skip(d as int)[i as int] != suffix@[i as int]);
            }
            return false;
        }
        i += 1;
    }
    proof {
        assert(s@.skip(d as int) =~= suffix@);
    }
    true
}

/// The characters of `s` from `from` up to `to`.
pub fn copy_range(s: &String, from: usize, to: usize) -> (part: String)
    requires
        from <= to <= s@.len(),
    ensures
        part@ == s@.subrange(from as int, to as int),
{
    let mut part = String::new();
    let mut i: usize = from;
    while i < to
        invariant
            from <= i <= to,
            to <= s@.len(),
            part@ == s@.subrange(from as int, i as int),
        decreases to - i,
    {
        push_char(&mut part, s.as_str().get_char(i));
        proof {
            assert(s@.subrange(from as int, i + 1) =~= s@.subrange(from as int, i as int).push(s@[i as int]));
        }
        i += 1;
    }
    part
}

/// `s` with a tab after every newline.
pub open spec fn tabbed_after_newlines(s: Seq<char>) -> Seq<char>
    decreases s.len(),
{
    if s.len() == 0 {
        Seq::empty()
    } else if s.last() == '\n' {
        tabbed_after_newlines(s.drop_last()) + seq!['\n', '\t']
    } else {
        tabbed_after_newlines(s.drop_last()).push(s.last())
    }
}

/// `block` with every line indented by a tab.
pub fn indent(block: &String) -> (indented: String)
    ensures
        indented@ == seq!['\t'] + tabbed_after_newlines(block@),
{
    let mut out = String::new();
    push_char(&mut out, '\t');
    let len = block.as_str().unicode_len();
    let mut i: usize = 0;
    while i < len
        invariant
            i <= len,
            len == block@.len(),
            out@ == seq!['\t'] + tabbed_after_newlines(block@.take(i as int)),
        decreases len - i,
    {
        let c = block.as_str().get_char(i);
        proof {
            assert(block@.take(i + 1).drop_last() =~= block@.take(i as int));
            assert(block@.take(i + 1).last() == c);
        }
        push_char(&mut out, c);
        if c == '\n' {
            push_char(&mut out, '\t');
            proof {
                assert(out@ =~= seq!['\t'] + tabbed_after_newlines(block@.take(i + 1)));
            }
        } else {
            proof {
                assert(out@ =~= seq!['\t'] + tabbed_after_newlines(block@.take(i + 1)));
            }
        }
        i += 1;
    }
    proof {
        assert(block@.take(len as int) =~= block@);
    }
    out
}

} // verus!
