//! A domain written out for reading: each position as its value, or as the
//! values that are left to it.

use vstd::prelude::*;
use vstd::string::StringExecFns;
use crate::bits::{admits, contains, is_single, lemma_ones_bound, lowest, ones};

verus! {

/// The character of a decimal digit.
pub open spec fn digit(d: int) -> char {
    if d == 0 {
        '0'
    } else if d == 1 {
        '1'
    } else if d == 2 {
        '2'
    } else if d == 3 {
        '3'
    } else if d == 4 {
        '4'
    } else if d == 5 {
        '5'
    } else if d == 6 {
        '6'
    } else if d == 7 {
        '7'
    } else if d == 8 {
        '8'
    } else {
        '9'
    }
}

/// A number in decimal digits, without leading zeros.
pub open spec fn decimal(n: nat) -> Seq<char>
    decreases n,
{
    if n < 10 {
        seq![digit(n as int)]
    } else {
        decimal(n / 10).push(digit((n % 10) as int))
    }
}

/// The parts one after the other, with `sep` between each two of them.
pub open spec fn join(parts: Seq<Seq<char>>, sep: Seq<char>) -> Seq<char>
    decreases parts.len(),
{
    if parts.len() == 0 {
        Seq::empty()
    } else if parts.len() == 1 {
        parts[0]
    } else {
        join(parts.drop_last(), sep) + sep + parts.last()
    }
}

/// The values below `k` that belong to `m`, each in decimal, in increasing
/// order.
pub open spec fn values_below(m: u64, k: nat) -> Seq<Seq<char>>
    decreases k,
{
    if k == 0 {
        Seq::empty()
    } else if admits(m, k - 1) {
        values_below(m, (k - 1) as nat).push(decimal((k - 1) as nat))
    } else {
        values_below(m, (k - 1) as nat)
    }
}

/// How one position is written: its value where it is known; its values with
/// `/` between them where at most 7 are left, which is nothing where none is;
/// and `???` with their number in brackets where more are left.
pub open spec fn mask_text(m: u64) -> Seq<char> {
    if is_single(m) {
        decimal(lowest(m) as nat)
    } else if ones(m) <= 7 {
        join(values_below(m, 64), seq!['/'])
    } else {
        seq!['?', '?', '?', '('] + decimal(ones(m)) + seq![')']
    }
}

/// The text of each position.
pub open spec fn mask_texts(m: Seq<u64>) -> Seq<Seq<char>> {
    Seq::new(m.len(), |k: int| mask_text(m[k]))
}

/// How a domain is written: its positions with `, ` between them.
pub open spec fn masks_text(m: Seq<u64>) -> Seq<char> {
    join(mask_texts(m), seq![',', ' '])
}

/// Putting one more part behind a joined text.
proof fn lemma_join_push(parts: Seq<Seq<char>>, sep: Seq<char>, part: Seq<char>)
    ensures
        join(parts.push(part), sep) == if parts.len() == 0 {
            part
        } else {
            join(parts, sep) + sep + part
        },
{
    assert(parts.push(part).drop_last() =~= parts);
}

/// Appends the decimal digits of `n`.
pub fn push_decimal(text: &mut String, n: usize)
    ensures
        final(text)@ == old(text)@ + decimal(n as nat),
    decreases n,
{
    if n >= 10 {
        push_decimal(text, n / 10);
    }
    let d = n % 10;
    proof {
        reveal_strlit("0");
        reveal_strlit("1");
        reveal_strlit("2");
        reveal_strlit("3");
        reveal_strlit("4");
        reveal_strlit("5");
        reveal_strlit("6");
        reveal_strlit("7");
        reveal_strlit("8");
        reveal_strlit("9");
    }
    let last: &str = if d == 0 {
        "0"
    } else if d == 1 {
        "1"
    } else if d == 2 {
        "2"
    } else if d == 3 {
        "3"
    } else if d == 4 {
        "4"
    } else if d == 5 {
        "5"
    } else if d == 6 {
        "6"
    } else if d == 7 {
        "7"
    } else if d == 8 {
        "8"
    } else {
        "9"
    };
    proof {
        assert(last@ =~= seq![digit(d as int)]);
    }
    let ghost head = text@;
    text.append(last);
    proof {
        if n >= 10 {
            assert(text@ =~= old(text)@ + decimal((n / 10) as nat).push(digit(d as int)));
        } else {
            assert(text@ =~= old(text)@ + seq![digit(d as int)]);
        }
    }
}

/// Appends the text of one position.
pub fn push_mask(text: &mut String, mask: u64)
    ensures
        final(text)@ == old(text)@ + mask_text(mask),
{
    let count = mask.count_ones();
    proof {
        lemma_ones_bound(mask, 64);
    }
    if count == 1 {
        push_decimal(text, mask.trailing_zeros() as usize);
    } else if count <= 7 {
        let ghost head = text@;
        let mut first = true;
        let mut v: usize = 0;
        proof {
            assert(text@ =~= head + join(values_below(mask, 0), seq!['/']));
        }
        while v < 64
            invariant
                v <= 64,
                first == (values_below(mask, v as nat).len() == 0),
                text@ == head + join(values_below(mask, v as nat), seq!['/']),
            decreases 64 - v,
        {
            if contains(mask, v) {
                let ghost sofar = values_below(mask, v as nat);
                let ghost before = text@;
                if !first {
                    proof {
                        reveal_strlit("/");
                        assert("/"@ =~= seq!['/']);
                    }
                    text.append("/");
                }
                push_decimal(text, v);
                first = false;
                proof {
                    lemma_join_push(sofar, seq!['/'], decimal(v as nat));
                    assert(text@ =~= head + join(values_below(mask, (v + 1) as nat), seq!['/']));
                }
            }
            v += 1;
        }
    } else {
        proof {
            reveal_strlit("???(");
            reveal_strlit(")");
        }
        let ghost head = text@;
        text.append("???(");
        push_decimal(text, count as usize);
        text.append(")");
        proof {
            assert("???("@ =~= seq!['?', '?', '?', '(']);
            assert(")"@ =~= seq![')']);
            assert(text@ =~= head + (seq!['?', '?', '?', '('] + decimal(ones(mask)) + seq![')']));
        }
    }
}

/// Writes a domain out: a known position as its value, one with at most 7
/// values as those values with `/` between them, any other as `???` with the
/// number of its values in brackets; the positions with `, ` between them.
pub fn masks_to_string(masks: &Vec<u64>) -> (text: String)
    ensures
        text@ == masks_text(masks@),
{
    let mut text = String::new();
    let mut k: usize = 0;
    proof {
        assert(mask_texts(masks@).subrange(0, 0) =~= Seq::<Seq<char>>::empty());
        assert(text@ =~= join(mask_texts(masks@).subrange(0, 0), seq![',', ' ']));
    }
    while k < masks.len()
        invariant
            k <= masks.len(),
            text@ == join(mask_texts(masks@).subrange(0, k as int), seq![',', ' ']),
        decreases masks.len() - k,
    {
        let ghost sofar = mask_texts(masks@).subrange(0, k as int);
        if k > 0 {
            proof {
                reveal_strlit(", ");
                assert(", "@ =~= seq![',', ' ']);
            }
            text.append(", ");
        }
        push_mask(&mut text, masks[k]);
        proof {
            lemma_join_push(sofar, seq![',', ' '], mask_text(masks@[k as int]));
            assert(mask_texts(masks@).subrange(0, k + 1) =~= sofar.push(mask_text(masks@[k as int])));
        }
        k += 1;
    }
    proof {
        assert(mask_texts(masks@).subrange(0, masks@.len() as int) =~= mask_texts(masks@));
    }
    text
}

} // verus!
