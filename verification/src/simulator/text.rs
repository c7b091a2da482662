//! Numbers and lists as text.

use vstd::prelude::*;
use vstd::string::*;

verus! {

/// The character of a decimal digit.
pub open spec fn digit(d: nat) -> char {
    (48 + d) as char
}

/// The decimal digits of a number, without leading zeros.
pub open spec fn digits(n: nat) -> Seq<char>
    decreases n,
{
    if n < 10 {
        seq![digit(n)]
    } else {
        digits(n / 10).push(digit(n % 10))
    }
}

fn append_digit(s: &mut String, d: u128)
    requires
        d < 10,
    ensures
        final(s)@ == old(s)@.push(digit(d as nat)),
{
    proof {
        reveal_strlit("0");
        reveal_strlit("1");
        reveal_strlit("2");
        reveal_strlit("3");
        reveal_strlit("4");
        reveal_strlit("5");
        reveal_strlit("6");
        reveal_strlit("7");
        reveal_strlit("8");
        reveal_strlit("9");
    }
    let ghost start = s@;
    if d == 0 {
        s.append("0");
    } else if d == 1 {
        s.append("1");
    } else if d == 2 {
        s.append("2");
    } else if d == 3 {
        s.append("3");
    } else if d == 4 {
        s.append("4");
    } else if d == 5 {
        s.append("5");
    } else if d == 6 {
        s.append("6");
    } else if d == 7 {
        s.append("7");
    } else if d == 8 {
        s.append("8");
    } else {
        s.append("9");
    }
    assert(s@ =~= start.push(digit(d as nat)));
}

fn append_decimal(s: &mut String, n: u128)
    ensures
        final(s)@ == old(s)@ + digits(n as nat),
    decreases n,
{
    let ghost start = s@;
    if n >= 10 {
        append_decimal(s, n / 10);
    }
    append_digit(s, n % 10);
    assert(s@ =~= start + digits(n as nat));
}

/// A number in decimal.
pub fn decimal(n: u128) -> (s: String)
    ensures
        s@ == digits(n as nat),
        number(s@) == n,
        s@.len() > 1 ==> s@[0] != '0',
{
    proof {
        lemma_digits_read(n as nat);
    }
    let mut s: String = String::new();
    append_decimal(&mut s, n);
    assert(s@ =~= digits(n as nat));
    s
}

/// The number that a text of decimal digits stands for.
pub open spec fn number(s: Seq<char>) -> nat
    decreases s.len(),
{
    if s.len() == 0 {
        0
    } else {
        10 * number(s.drop_last()) + (s.last() as nat - '0' as nat) as nat
    }
}

/// A number is written so that reading it gives the number back: in decimal digits alone, the
/// first of them not zero unless it is the only one.
pub proof fn lemma_digits_read(n: nat)
    ensures
        number(digits(n)) == n,
        digits(n).len() > 0,
        digits(n).len() > 1 ==> digits(n)[0] != '0',
        n > 0 ==> digits(n)[0] != '0',
        forall|i: int| 0 <= i < digits(n).len() ==> '0' <= (#[trigger] digits(n)[i]) <= '9',
    decreases n,
{
    let s = digits(n);
    if n < 10 {
        assert(s.drop_last() =~= Seq::<char>::empty());
        assert(number(s.drop_last()) == 0);
        assert(s.last() == digit(n));
    } else {
        lemma_digits_read(n / 10);
        let rest = digits(n / 10);
        assert(s.drop_last() =~= rest);
        assert(s.last() == digit(n % 10));
        assert(s[0] == rest[0]);
        assert forall|i: int| 0 <= i < s.len() implies '0' <= (#[trigger] s[i]) <= '9' by {
            if i < rest.len() {
                assert(s[i] == rest[i]);
            }
        }
    }
}

/// The parts of a text between its commas.
pub open spec fn parts(s: Seq<char>) -> Seq<Seq<char>>
    decreases s.len(),
{
    if s.len() == 0 {
        seq![Seq::empty()]
    } else {
        let before = parts(s.drop_last());
        if s.last() == ',' {
            before.push(Seq::empty())
        } else {
            before.drop_last().push(before.last().push(s.last()))
        }
    }
}

proof fn lemma_parts_len(s: Seq<char>)
    ensures
        parts(s).len() > 0,
    decreases s.len(),
{
    if s.len() > 0 {
        lemma_parts_len(s.drop_last());
    }
}

proof fn lemma_parts_extend(s: Seq<char>, t: Seq<char>)
    requires
        !t.contains(','),
    ensures
        parts(s + t) == parts(s).drop_last().push(parts(s).last() + t),
    decreases t.len(),
{
    lemma_parts_len(s);
    if t.len() == 0 {
        assert(s + t =~= s);
        assert(parts(s).last() + t =~= parts(s).last());
        assert(parts(s).drop_last().push(parts(s).last()) =~= parts(s));
    } else {
        let rest = t.drop_last();
        assert(!rest.contains(',')) by {
            if rest.contains(',') {
                let i = choose|i: int| 0 <= i < rest.len() && rest[i] == ',';
                assert(t[i] == ',');
            }
        }
        lemma_parts_extend(s, rest);
        assert((s + t).drop_last() =~= s + rest);
        assert(t[t.len() - 1] != ',');
        let before = parts(s + rest);
        assert(before.drop_last() =~= parts(s).drop_last());
        assert(before.last() =~= parts(s).last() + rest);
        assert((parts(s).last() + rest).push(t.last()) =~= parts(s).last() + t);
    }
}

/// Texts without commas can be told apart again after they were joined: the parts between the
/// commas are the texts, in their order.
pub proof fn lemma_parts_of_joined(fields: Seq<Seq<char>>)
    requires
        fields.len() > 0,
        forall|i: int| 0 <= i < fields.len() ==> !(#[trigger] fields[i]).contains(','),
    ensures
        parts(comma_separated(fields)) == fields,
    decreases fields.len(),
{
    let last = fields[fields.len() - 1];
    let none = Seq::<char>::empty();
    assert(parts(none) =~= seq![none]);
    if fields.len() == 1 {
        lemma_parts_extend(none, last);
        assert(none + last =~= last);
        assert(parts(none).drop_last() =~= Seq::empty());
        assert(parts(none).last() + last =~= last);
        assert(parts(comma_separated(fields)) =~= fields);
    } else {
        let rest = fields.drop_last();
        assert forall|i: int| 0 <= i < rest.len() implies !(#[trigger] rest[i]).contains(',') by {
            assert(rest[i] == fields[i]);
        }
        lemma_parts_of_joined(rest);
        reveal_strlit(",");
        let s = comma_separated(rest);
        let t = s + ","@;
        assert(t.drop_last() =~= s);
        assert(t.last() == ',');
        assert(parts(t) == rest.push(none));
        lemma_parts_extend(t, last);
        assert(rest.push(none).drop_last() =~= rest);
        assert(none + last =~= last);
        assert(parts(comma_separated(fields)) =~= fields);
    }
}

/// `true` or `false`.
pub open spec fn truth_text(b: bool) -> Seq<char> {
    if b {
        "true"@
    } else {
        "false"@
    }
}

/// `true` or `false`.
pub fn truth(b: bool) -> (s: String)
    ensures
        s@ == truth_text(b),
{
    if b {
        "true".to_string()
    } else {
        "false".to_string()
    }
}

/// The texts with commas between them.
pub open spec fn comma_separated(fields: Seq<Seq<char>>) -> Seq<char>
    decreases fields.len(),
{
    if fields.len() == 0 {
        Seq::empty()
    } else if fields.len() == 1 {
        fields[0]
    } else {
        comma_separated(fields.drop_last()) + ","@ + fields.last()
    }
}

/// The characters of each text.
pub open spec fn texts(fields: Seq<String>) -> Seq<Seq<char>> {
    Seq::new(fields.len(), |i: int| fields[i]@)
}

/// The texts with commas between them.
pub fn join_with_commas(fields: &Vec<String>) -> (s: String)
    ensures
        s@ == comma_separated(texts(fields@)),
{
    let mut s: String = String::new();
    let ghost all = texts(fields@);
    let mut i: usize = 0;
    assert(all.take(0) =~= Seq::<Seq<char>>::empty());
    while i < fields.len()
        invariant
            i <= fields@.len(),
            all == texts(fields@),
            s@ == comma_separated(all.take(i as int)),
        decreases fields@.len() - i,
    {
        let ghost before = s@;
        if i > 0 {
            s.append(",");
        }
        s.append(fields[i].as_str());
        proof {
            let next = all.take(i + 1);
            assert(next.drop_last() =~= all.take(i as int));
            assert(next.last() == fields@[i as int]@);
            assert(s@ =~= comma_separated(next));
        }
        i = i + 1;
    }
    assert(all.take(i as int) =~= all);
    s
}

} // verus!
