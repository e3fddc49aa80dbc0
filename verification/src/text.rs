//! Text helpers: joining strings with a separator and writing numbers out.

use vstd::prelude::*;
use vstd::string::StringExecFns;

verus! {

/// The texts held by a vector of strings.
pub open spec fn texts_view(texts: Seq<String>) -> Seq<Seq<char>> {
    texts.map_values(|t: String| t@)
}

/// The parts one behind the other, with `sep` between each two of them.
pub open spec fn join_with(parts: Seq<Seq<char>>, sep: Seq<char>) -> Seq<char>
    decreases parts.len(),
{
    if parts.len() == 0 {
        Seq::empty()
    } else if parts.len() == 1 {
        parts[0]
    } else {
        parts[0] + sep + join_with(parts.drop_first(), sep)
    }
}

/// Joining one more part to a non-empty run puts the separator and the part
/// behind it.
pub proof fn lemma_join_push(parts: Seq<Seq<char>>, sep: Seq<char>, last: Seq<char>)
    ensures
        join_with(parts.push(last), sep) == if parts.len() == 0 {
            last
        } else {
            join_with(parts, sep) + sep + last
        },
    decreases parts.len(),
{
    if parts.len() == 0 {
        assert(parts.push(last)[0] == last);
    } else {
        let all = parts.push(last);
        assert(all.drop_first() =~= parts.drop_first().push(last));
        lemma_join_push(parts.drop_first(), sep, last);
        if parts.len() == 1 {
            assert(parts.drop_first().len() == 0);
            assert(join_with(all, sep) =~= parts[0] + sep + last);
        } else {
            assert(join_with(all, sep) =~= join_with(parts, sep) + sep + last);
        }
    }
}

/// Joins the texts, with `sep` between each two of them.
pub fn join_strings(texts: &Vec<String>, sep: &str) -> (joined: String)
    ensures
        joined@ == join_with(texts_view(texts@), sep@),
{
    let mut joined = String::new();
    let mut i: usize = 0;
    assert(texts_view(texts@).take(0) =~= Seq::<Seq<char>>::empty());
    while i < texts.len()
        invariant
            i <= texts.len(),
            joined@ == join_with(texts_view(texts@).take(i as int), sep@),
        decreases texts.len() - i,
    {
        if i > 0 {
            joined.append(sep);
        }
        joined.append(texts[i].as_str());
        proof {
            let parts = texts_view(texts@);
            assert(parts.take(i + 1) =~= parts.take(i as int).push(texts@[i as int]@));
            lemma_join_push(parts.take(i as int), sep@, texts@[i as int]@);
        }
        i = i + 1;
    }
    assert(texts_view(texts@).take(i as int) =~= texts_view(texts@));
    joined
}

/// The character of a decimal digit.
pub open spec fn digit_char(d: int) -> char {
    (0x30 + d) as char
}

/// A number written out in decimal, without leading zeros.
pub open spec fn decimal(n: nat) -> Seq<char>
    decreases n,
{
    if n < 10 {
        seq![digit_char(n as int)]
    } else {
        decimal(n / 10).push(digit_char((n % 10) as int))
    }
}

/// A decimal digit as text.
fn digit_str(d: u8) -> (text: &'static str)
    requires
        d < 10,
    ensures
        text@ == seq![digit_char(d as int)],
{
    proof {
        reveal_strlit("0");
        reveal_strlit("1");
        reveal_strlit("2");
        reveal_strlit("3");
        reveal_strlit("4");
        reveal_strlit("5");
        reveal_strlit("6");
        reveal_strlit("7");
        reveal_strlit("8");
        reveal_strlit("9");
    }
    let text = if d == 0 {
        "0"
    } else if d == 1 {
        "1"
    } else if d == 2 {
        "2"
    } else if d == 3 {
        "3"
    } else if d == 4 {
        "4"
    } else if d == 5 {
        "5"
    } else if d == 6 {
        "6"
    } else if d == 7 {
        "7"
    } else if d == 8 {
        "8"
    } else {
        "9"
    };
    assert(text@ =~= seq![digit_char(d as int)]);
    text
}

/// A byte written out in decimal.
pub fn decimal_string(n: u8) -> (text: String)
    ensures
        text@ == decimal(n as nat),
{
    let mut text = String::new();
    if n >= 100 {
        text.append(digit_str(n / 100));
    }
    if n >= 10 {
        text.append(digit_str((n / 10) % 10));
    }
    text.append(digit_str(n % 10));
    proof {
        let v = n as nat;
        if n >= 100 {
            assert(decimal(v / 100) == seq![digit_char((v / 100) as int)]);
            assert((v / 10) / 10 == v / 100);
            assert(decimal(v / 10) == decimal(v / 100).push(digit_char(((v / 10) % 10) as int)));
        } else if n >= 10 {
            assert(decimal(v / 10) == seq![digit_char((v / 10) as int)]);
        }
        assert(text@ =~= decimal(v));
    }
    text
}

} // verus!
