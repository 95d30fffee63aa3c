//! Text: the order of strings, sorting and decimal numbers.
use vstd::prelude::*;
use vstd::std_specs::iter::IteratorSpec;
use vstd::string::*;

verus! {

broadcast use {vstd::seq_lib::group_seq_properties, vstd::string::group_string_axioms};

/// Whether `a` comes no later than `b` in the dictionary order of code points.
pub open spec fn lex_le(a: Seq<char>, b: Seq<char>) -> bool
    decreases a.len(),
{
    if a.len() == 0 {
        true
    } else if b.len() == 0 {
        false
    } else if a[0] != b[0] {
        (a[0] as int) < (b[0] as int)
    } else {
        lex_le(a.drop_first(), b.drop_first())
    }
}

/// Whether `a` comes strictly before `b`.
pub open spec fn lex_lt(a: Seq<char>, b: Seq<char>) -> bool {
    lex_le(a, b) && a != b
}

/// Every text precedes or equals itself.
pub proof fn lex_reflexive(a: Seq<char>)
    ensures
        lex_le(a, a),
    decreases a.len(),
{
    if a.len() > 0 {
        lex_reflexive(a.drop_first());
    }
}

/// Of two texts one precedes or equals the other.
pub proof fn lex_total(a: Seq<char>, b: Seq<char>)
    ensures
        lex_le(a, b) || lex_le(b, a),
    decreases a.len(),
{
    if a.len() > 0 && b.len() > 0 {
        lex_total(a.drop_first(), b.drop_first());
    }
}

/// Two texts that precede or equal one another are the same text.
pub proof fn lex_antisymmetric(a: Seq<char>, b: Seq<char>)
    requires
        lex_le(a, b),
        lex_le(b, a),
    ensures
        a == b,
    decreases a.len(),
{
    if a.len() > 0 && b.len() > 0 {
        lex_antisymmetric(a.drop_first(), b.drop_first());
        assert(a =~= seq![a[0]] + a.drop_first());
        assert(b =~= seq![b[0]] + b.drop_first());
    } else {
        assert(a =~= b);
    }
}

/// The order of texts is transitive.
pub proof fn lex_transitive(a: Seq<char>, b: Seq<char>, c: Seq<char>)
    requires
        lex_le(a, b),
        lex_le(b, c),
    ensures
        lex_le(a, c),
    decreases a.len(),
{
    if a.len() > 0 && b.len() > 0 && c.len() > 0 && a[0] == b[0] && b[0] == c[0] {
        lex_transitive(a.drop_first(), b.drop_first(), c.drop_first());
    }
}

/// Compares two texts in dictionary order.
pub fn text_le(a: &str, b: &str) -> (r: bool)
    ensures
        r == lex_le(a@, b@),
{
    let mut xs = a.chars();
    let mut ys = b.chars();
    loop
        invariant
            xs.obeys_prophetic_iter_laws(),
            ys.obeys_prophetic_iter_laws(),
            xs.decrease() is Some,
            lex_le(a@, b@) == lex_le(xs.remaining(), ys.remaining()),
        decreases xs.decrease()->0,
    {
        match xs.next() {
            None => return true,
            Some(x) => match ys.next() {
                None => return false,
                Some(y) => {
                    if x != y {
                        return x < y;
                    }
                },
            },
        }
    }
}

/// The text in an optional string.
pub open spec fn opt_text(s: Option<String>) -> Option<Seq<char>> {
    match s {
        Some(s) => Some(s@),
        None => None,
    }
}

/// The texts that a list of strings holds.
pub open spec fn texts(s: Seq<String>) -> Seq<Seq<char>> {
    s.map_values(|t: String| t@)
}

/// Whether texts stand in dictionary order.
pub open spec fn in_order(s: Seq<Seq<char>>) -> bool {
    forall|i: int, j: int| 0 <= i < j < s.len() ==> lex_le(#[trigger] s[i], #[trigger] s[j])
}

/// Sorts strings in dictionary order.
pub fn sort_texts(items: Vec<String>) -> (sorted: Vec<String>)
    ensures
        in_order(texts(sorted@)),
        texts(sorted@).to_multiset() == texts(items@).to_multiset(),
{
    let mut sorted: Vec<String> = Vec::new();
    let mut items = items;
    let ghost all = texts(items@);
    proof {
        broadcast use vstd::seq_lib::group_to_multiset_ensures;

        assert(texts(sorted@).len() == 0);
        assert(all.to_multiset() =~= texts(items@).to_multiset().add(texts(sorted@).to_multiset()));
    }
    while items.len() > 0
        invariant
            in_order(texts(sorted@)),
            all.to_multiset() == texts(items@).to_multiset().add(texts(sorted@).to_multiset()),
        decreases items.len(),
    {
        let ghost before = items@;
        let ghost placed = sorted@;
        let item = items.pop().unwrap();
        let mut at: usize = 0;
        while at < sorted.len() && text_le(sorted[at].as_str(), item.as_str())
            invariant
                at <= sorted.len(),
                forall|k: int| 0 <= k < at ==> lex_le(#[trigger] texts(sorted@)[k], item@),
            ensures
                at < sorted.len() ==> !lex_le(texts(sorted@)[at as int], item@),
            decreases sorted.len() - at,
        {
            at = at + 1;
        }
        sorted.insert(at, item);
        proof {
            let t = texts(placed);
            assert(texts(sorted@) =~= t.insert(at as int, item@));
            assert(texts(before) =~= texts(items@).push(item@));
            let u = texts(sorted@);
            assert(u[at as int] == item@);
            assert(u.remove(at as int) =~= t);
            broadcast use vstd::seq_lib::group_to_multiset_ensures;

            assert(t.to_multiset() == u.to_multiset().remove(item@));
            assert(u.contains(item@));
            assert(u.to_multiset() =~= t.to_multiset().insert(item@));
            assert(texts(before).to_multiset() =~= texts(items@).to_multiset().insert(item@));
            assert forall|i: int, j: int| 0 <= i < j < sorted@.len() implies lex_le(
                #[trigger] texts(sorted@)[i],
                #[trigger] texts(sorted@)[j],
            ) by {
                if j == at {
                } else if i < at && j > at {
                    assert(texts(sorted@)[j] == t[j - 1]);
                } else if i == at {
                    lex_total(item@, t[at as int]);
                    assert(texts(sorted@)[j] == t[j - 1]);
                    if j - 1 > at {
                        lex_transitive(item@, t[at as int], t[j - 1]);
                    }
                } else if i > at {
                    assert(texts(sorted@)[i] == t[i - 1]);
                    assert(texts(sorted@)[j] == t[j - 1]);
                } else {
                    assert(texts(sorted@)[i] == t[i]);
                    assert(texts(sorted@)[j] == t[j]);
                }
            }
            assert(all.to_multiset() =~= texts(items@).to_multiset().add(
                texts(sorted@).to_multiset(),
            ));
        }
    }
    proof {
        broadcast use vstd::seq_lib::group_to_multiset_ensures;

        assert(texts(items@).len() == 0);
        assert(all.to_multiset() =~= texts(sorted@).to_multiset());
    }
    sorted
}

/// The decimal digit that stands for `d`.
pub open spec fn digit(d: nat) -> Seq<char>
    recommends
        d < 10,
{
    if d == 0 {
        "0"@
    } else if d == 1 {
        "1"@
    } else if d == 2 {
        "2"@
    } else if d == 3 {
        "3"@
    } else if d == 4 {
        "4"@
    } else if d == 5 {
        "5"@
    } else if d == 6 {
        "6"@
    } else if d == 7 {
        "7"@
    } else if d == 8 {
        "8"@
    } else {
        "9"@
    }
}

/// The decimal numeral of `n`, without leading zeros.
pub open spec fn decimal(n: nat) -> Seq<char>
    decreases n,
{
    if n < 10 {
        digit(n)
    } else {
        decimal(n / 10) + digit(n % 10)
    }
}

/// Numbers that are written alike are the same number.
pub proof fn decimal_injective(a: nat, b: nat)
    requires
        decimal(a) == decimal(b),
    ensures
        a == b,
    decreases a,
{
    lemma_decimal(a);
    lemma_decimal(b);
    let text = decimal(a);
    if a >= 10 && b >= 10 {
        assert(text.drop_last() =~= decimal(a / 10));
        assert(text.drop_last() =~= decimal(b / 10));
        decimal_injective(a / 10, b / 10);
    }
    assert(text.last() == digit(a % 10)[0]);
    assert(text.last() == digit(b % 10)[0]);
}

/// A numeral ends in the digit of the remainder by ten, and has more digits only from ten on.
proof fn lemma_decimal(n: nat)
    ensures
        decimal(n).len() >= 1,
        decimal(n).len() == 1 <==> n < 10,
        decimal(n).last() == digit(n % 10)[0],
        forall|d: nat, e: nat|
            d < 10 && e < 10 && #[trigger] digit(d)[0] == #[trigger] digit(e)[0] ==> d == e,
        forall|d: nat| d < 10 ==> (#[trigger] digit(d)).len() == 1,
    decreases n,
{
    reveal_strlit("0");
    reveal_strlit("1");
    reveal_strlit("2");
    reveal_strlit("3");
    reveal_strlit("4");
    reveal_strlit("5");
    reveal_strlit("6");
    reveal_strlit("7");
    reveal_strlit("8");
    reveal_strlit("9");
    if n >= 10 {
        lemma_decimal(n / 10);
    }
}

fn digit_text(d: usize) -> (r: &'static str)
    requires
        d < 10,
    ensures
        r@ == digit(d as nat),
{
    match d {
        0 => "0",
        1 => "1",
        2 => "2",
        3 => "3",
        4 => "4",
        5 => "5",
        6 => "6",
        7 => "7",
        8 => "8",
        _ => "9",
    }
}

/// Writes a number in decimal.
pub fn decimal_text(n: usize) -> (r: String)
    ensures
        r@ == decimal(n as nat),
    decreases n,
{
    let mut text = if n < 10 {
        String::new()
    } else {
        decimal_text(n / 10)
    };
    text.append(digit_text(n % 10));
    text
}

/// Of two texts that differ, the one with the lower code point at the first difference comes
/// first.
pub proof fn order_is_decided_at_the_first_difference(
    start: Seq<char>,
    x: char,
    y: char,
    s: Seq<char>,
    t: Seq<char>,
)
    requires
        x != y,
    ensures
        lex_le(start + seq![x] + s, start + seq![y] + t) <==> x as int <= y as int,
        lex_lt(start + seq![x] + s, start + seq![y] + t) <==> x as int <= y as int,
    decreases start.len(),
{
    let a = start + seq![x] + s;
    let b = start + seq![y] + t;
    assert(a[start.len() as int] == x && b[start.len() as int] == y);
    if start.len() > 0 {
        let rest = start.drop_first();
        assert(a.drop_first() =~= rest + seq![x] + s);
        assert(b.drop_first() =~= rest + seq![y] + t);
        order_is_decided_at_the_first_difference(rest, x, y, s, t);
    }
}

/// A text comes before every longer text that begins with it, and not after.
pub proof fn beginnings_come_first(start: Seq<char>, rest: Seq<char>)
    ensures
        lex_le(start, start + rest),
        lex_le(start + rest, start) <==> rest.len() == 0,
        lex_lt(start, start + rest) <==> rest.len() > 0,
    decreases start.len(),
{
    let all = start + rest;
    if start.len() > 0 {
        assert(all.drop_first() =~= start.drop_first() + rest);
        beginnings_come_first(start.drop_first(), rest);
    } else {
        assert(all =~= rest);
    }
    if rest.len() == 0 {
        assert(all =~= start);
    }
}

/// Of two texts exactly one comes strictly before the other, unless they are the same.
pub proof fn order_is_strict(a: Seq<char>, b: Seq<char>)
    ensures
        lex_lt(a, b) <==> !lex_le(b, a),
        lex_lt(a, b) || lex_lt(b, a) || a == b,
{
    lex_total(a, b);
    if lex_le(a, b) && lex_le(b, a) {
        lex_antisymmetric(a, b);
    }
    if a == b {
        lex_reflexive(a);
    }
}

/// A list of strings has the text of each string, in its place.
pub proof fn texts_are_those_of_the_strings(s: Seq<String>)
    ensures
        texts(s).len() == s.len(),
        forall|i: int| 0 <= i < s.len() ==> #[trigger] texts(s)[i] == s[i]@,
        forall|t: Seq<char>| #[trigger]
            texts(s).contains(t) <==> exists|i: int| 0 <= i < s.len() && (#[trigger] s[i])@ == t,
{
    assert forall|t: Seq<char>| #[trigger] texts(s).contains(t) <==> exists|i: int|
        0 <= i < s.len() && (#[trigger] s[i])@ == t by {
        if texts(s).contains(t) {
            let i = texts(s).index_of(t);
            assert(s[i]@ == t);
        }
        if exists|i: int| 0 <= i < s.len() && (#[trigger] s[i])@ == t {
            let i = choose|i: int| 0 <= i < s.len() && (#[trigger] s[i])@ == t;
            assert(texts(s)[i] == t);
        }
    }
}

/// An optional string has its text, where it is there.
pub proof fn optional_text_is_that_of_the_string(s: String)
    ensures
        opt_text(Some(s)) == Some(s@),
        opt_text(None) is None,
{
}

/// Texts are in order if and only if none comes strictly before an earlier one.
pub proof fn no_text_comes_before_an_earlier_one(s: Seq<Seq<char>>)
    ensures
        in_order(s) <==> forall|i: int, j: int|
            0 <= i < j < s.len() ==> !lex_lt(#[trigger] s[j], #[trigger] s[i]),
{
    assert forall|i: int, j: int| 0 <= i < j < s.len() implies (lex_le(
        #[trigger] s[i],
        #[trigger] s[j],
    ) <==> !lex_lt(s[j], s[i])) by {
        order_is_strict(s[j], s[i]);
    }
}

/// A numeral is one digit for a number below ten, and else that of the tenth part with one digit
/// more.
pub proof fn numerals_grow_by_a_digit(n: nat, d: nat)
    requires
        d < 10,
    ensures
        decimal(d) == seq![('0' as int + d) as char],
        n > 0 ==> decimal(10 * n + d) == decimal(n).push(('0' as int + d) as char),
{
    reveal_strlit("0");
    reveal_strlit("1");
    reveal_strlit("2");
    reveal_strlit("3");
    reveal_strlit("4");
    reveal_strlit("5");
    reveal_strlit("6");
    reveal_strlit("7");
    reveal_strlit("8");
    reveal_strlit("9");
    assert(digit(d) =~= seq![('0' as int + d) as char]);
    if n > 0 {
        assert((10 * n + d) / 10 == n);
        assert((10 * n + d) % 10 == d);
        assert(decimal(10 * n + d) =~= decimal(n).push(('0' as int + d) as char));
    }
}

}
