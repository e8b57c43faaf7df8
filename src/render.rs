//! Writing a record's data segment back as text: `<max>:<v1>,<v2>,...,<vn>`.

use vstd::prelude::*;

use crate::text::{
    after, all_digits, before, digit_value, is_digit, digits_value, find_char, first_at, int_of,
    lemma_find_at, lemma_find_none, signed_value,
};
use crate::entry::{line_fields, values_of, Fault};

verus! {

pub open spec fn digit_char(d: int) -> char {
    if d == 0 {
        '0'
    } else if d == 1 {
        '1'
    } else if d == 2 {
        '2'
    } else if d == 3 {
        '3'
    } else if d == 4 {
        '4'
    } else if d == 5 {
        '5'
    } else if d == 6 {
        '6'
    } else if d == 7 {
        '7'
    } else if d == 8 {
        '8'
    } else {
        '9'
    }
}

/// The decimal digits of `n`, without leading zeros.
pub open spec fn nat_text(n: nat) -> Seq<char>
    decreases n,
{
    if n < 10 {
        seq![digit_char(n as int)]
    } else {
        nat_text(n / 10).push(digit_char(n as int % 10))
    }
}

/// `v` in decimal, with a `-` before it when negative.
pub open spec fn int_text(v: int) -> Seq<char> {
    if v < 0 {
        seq!['-'] + nat_text((-v) as nat)
    } else {
        nat_text(v as nat)
    }
}

/// The values in decimal, separated by commas.
pub open spec fn values_text(vs: Seq<i32>) -> Seq<char>
    decreases vs.len(),
{
    if vs.len() == 0 {
        seq![]
    } else if vs.len() == 1 {
        int_text(vs[0] as int)
    } else {
        int_text(vs[0] as int) + seq![','] + values_text(vs.drop_first())
    }
}

/// The data segment of a record with key `max` and values `vs`.
pub open spec fn data_text(max: i32, vs: Seq<i32>) -> Seq<char> {
    int_text(max as int) + seq![':'] + values_text(vs)
}

/// No `c` in `s`.
pub open spec fn lacks(s: Seq<char>, c: char) -> bool {
    forall|i: int| 0 <= i < s.len() ==> s[i] != c
}

proof fn lemma_digit_char(d: int)
    requires
        0 <= d < 10,
    ensures
        is_digit(digit_char(d)),
        digit_value(digit_char(d)) == d,
{
}

proof fn lemma_nat_text(n: nat)
    ensures
        nat_text(n).len() > 0,
        all_digits(nat_text(n)),
        digits_value(nat_text(n)) == n,
    decreases n,
{
    lemma_digit_char(n as int % 10);
    if n >= 10 {
        lemma_nat_text(n / 10);
        let s = nat_text(n);
        assert(s.drop_last() =~= nat_text(n / 10));
        assert(s.last() == digit_char(n as int % 10));
        assert(digits_value(s) == digits_value(nat_text(n / 10)) * 10 + digit_value(
            digit_char(n as int % 10),
        ));
        assert(n == (n / 10) * 10 + n % 10);
    } else {
        let s = nat_text(n);
        assert(s.drop_last() =~= Seq::<char>::empty());
        assert(digits_value(s) == digits_value(s.drop_last()) * 10 + digit_value(s.last()));
        assert(n % 10 == n);
    }
}

/// The decimal text of an integer reads back as that integer.
pub proof fn lemma_int_text(v: i32)
    ensures
        int_of(int_text(v as int)) == Some(v),
        int_text(v as int).len() > 0,
        all_digits(int_text(v as int)) || int_text(v as int)[0] == '-',
        forall|i: int|
            0 <= i < int_text(v as int).len() ==> {
                let c = #[trigger] int_text(v as int)[i];
                c != ',' && c != ':' && c != '|'
            },
{
    let s = int_text(v as int);
    if v < 0 {
        let n = (-v) as nat;
        lemma_nat_text(n);
        assert(s.subrange(1, s.len() as int) =~= nat_text(n));
        assert(signed_value(s) == Some(-(n as int)));
        assert forall|i: int| 0 <= i < s.len() implies {
            let c = #[trigger] s[i];
            c != ',' && c != ':' && c != '|'
        } by {
            if i > 0 {
                assert(s[i] == nat_text(n)[i - 1]);
            }
        }
    } else {
        lemma_nat_text(v as nat);
        assert(s[0] != '-' && s[0] != '+');
    }
}

/// The first `c` stands at the given place of a text built around it.
proof fn lemma_cut_at(x: Seq<char>, c: char, y: Seq<char>)
    requires
        lacks(x, c),
    ensures
        before(x + seq![c] + y, c) == x,
        after(x + seq![c] + y, c) == Some(y),
{
    let s = x + seq![c] + y;
    assert(s[x.len() as int] == c);
    assert forall|j: int| 0 <= j < x.len() implies s[j] != c by {
        assert(s[j] == x[j]);
    }
    lemma_find_at(s, c, x.len() as int);
    assert(s.subrange(0, x.len() as int) =~= x);
    assert(s.subrange(x.len() as int + 1, s.len() as int) =~= y);
}

proof fn lemma_no_cut(s: Seq<char>, c: char)
    requires
        lacks(s, c),
    ensures
        before(s, c) == s,
        after(s, c) is None,
{
    lemma_find_none(s, c);
}

proof fn lemma_values_text(vs: Seq<i32>)
    requires
        vs.len() > 0,
    ensures
        values_of(values_text(vs)) == Ok::<Seq<i32>, Seq<char>>(vs),
        lacks(values_text(vs), ':'),
        lacks(values_text(vs), '|'),
    decreases vs.len(),
{
    let t = int_text(vs[0] as int);
    lemma_int_text(vs[0]);
    assert(lacks(t, ','));
    if vs.len() == 1 {
        lemma_no_cut(t, ',');
        assert(seq![vs[0]] =~= vs);
    } else {
        let rest = values_text(vs.drop_first());
        lemma_values_text(vs.drop_first());
        lemma_cut_at(t, ',', rest);
        assert(seq![vs[0]] + vs.drop_first() =~= vs);
        let s = values_text(vs);
        assert forall|i: int| 0 <= i < s.len() implies s[i] != ':' && s[i] != '|' by {
            if i < t.len() {
                assert(s[i] == t[i]);
            } else if i > t.len() {
                assert(s[i] == rest[i - t.len() - 1]);
            }
        }
    }
}

/// The data segment of a record reads back as its key and values.
pub proof fn lemma_data_text(max: i32, vs: Seq<i32>)
    requires
        vs.len() > 0,
    ensures
        before(data_text(max, vs), ':') == int_text(max as int),
        after(data_text(max, vs), ':') == Some(values_text(vs)),
        int_of(int_text(max as int)) == Some(max),
        values_of(values_text(vs)) == Ok::<Seq<i32>, Seq<char>>(vs),
        lacks(data_text(max, vs), '|'),
{
    let t = int_text(max as int);
    lemma_int_text(max);
    lemma_values_text(vs);
    assert(lacks(t, ':'));
    lemma_cut_at(t, ':', values_text(vs));
    let s = data_text(max, vs);
    assert forall|i: int| 0 <= i < s.len() implies s[i] != '|' by {
        if i < t.len() {
            assert(s[i] == t[i]);
        } else if i > t.len() {
            assert(s[i] == values_text(vs)[i - t.len() - 1]);
        }
    }
}

proof fn lemma_first_exists(s: Seq<char>, c: char, j: int)
    requires
        0 <= j < s.len(),
        s[j] == c,
    ensures
        exists|i: int| first_at(s, c, i),
    decreases j,
{
    if exists|k: int| 0 <= k < j && s[k] == c {
        let k = choose|k: int| 0 <= k < j && s[k] == c;
        lemma_first_exists(s, c, k);
    } else {
        assert(first_at(s, c, j));
    }
}

/// What stands before the first `c` holds no `c`.
pub proof fn lemma_before_lacks(s: Seq<char>, c: char)
    ensures
        lacks(before(s, c), c),
{
    if find_char(s, c) is None {
        assert forall|j: int| 0 <= j < s.len() implies s[j] != c by {
            if s[j] == c {
                lemma_first_exists(s, c, j);
            }
        }
    } else {
        let i = choose|i: int| first_at(s, c, i);
        assert(first_at(s, c, i));
    }
}

/// A line built from a timestamp text, a version and a data segment, neither of the
/// first two holding `|`, reads back as that version, key and values.
pub proof fn lemma_line_of_parts(ts: Seq<char>, ver: Seq<char>, max: i32, vs: Seq<i32>)
    requires
        lacks(ts, '|'),
        lacks(ver, '|'),
        vs.len() > 0,
    ensures
        ({
            let line = ts + seq!['|'] + ver + seq!['|'] + data_text(max, vs);
            &&& line.len() > 0
            &&& before(line, '|') == ts
            &&& line_fields(line) == Ok::<(Seq<char>, i32, Seq<i32>), Fault>((ver, max, vs))
        }),
{
    let d = data_text(max, vs);
    let rest = ver + seq!['|'] + d;
    let line = ts + seq!['|'] + ver + seq!['|'] + d;
    assert(line =~= ts + seq!['|'] + rest);
    lemma_cut_at(ts, '|', rest);
    lemma_cut_at(ver, '|', d);
    lemma_data_text(max, vs);
    lemma_no_cut(d, '|');
}

fn digit_str(d: u32) -> (r: &'static str)
    requires
        d < 10,
    ensures
        r@ == seq![digit_char(d as int)],
{
    proof {
        reveal_strlit("0");
        reveal_strlit("1");
        reveal_strlit("2");
        reveal_strlit("3");
        reveal_strlit("4");
        reveal_strlit("5");
        reveal_strlit("6");
        reveal_strlit("7");
        reveal_strlit("8");
        reveal_strlit("9");
    }
    let r = if d == 0 {
        "0"
    } else if d == 1 {
        "1"
    } else if d == 2 {
        "2"
    } else if d == 3 {
        "3"
    } else if d == 4 {
        "4"
    } else if d == 5 {
        "5"
    } else if d == 6 {
        "6"
    } else if d == 7 {
        "7"
    } else if d == 8 {
        "8"
    } else {
        "9"
    };
    assert(r@ =~= seq![digit_char(d as int)]);
    r
}

fn push_digits(s: &mut String, n: u32)
    ensures
        final(s)@ == old(s)@ + nat_text(n as nat),
    decreases n,
{
    if n >= 10 {
        push_digits(s, n / 10);
    }
    s.append(digit_str(n % 10));
    assert(final(s)@ =~= old(s)@ + nat_text(n as nat));
}

fn push_int(s: &mut String, v: i32)
    ensures
        final(s)@ == old(s)@ + int_text(v as int),
{
    if v < 0 {
        proof {
            reveal_strlit("-");
        }
        s.append("-");
        let m: u32 = (-(v as i64)) as u32;
        push_digits(s, m);
        assert(final(s)@ =~= old(s)@ + int_text(v as int));
    } else {
        push_digits(s, v as u32);
    }
}

proof fn lemma_values_text_push(vs: Seq<i32>, v: i32)
    requires
        vs.len() > 0,
    ensures
        values_text(vs.push(v)) == values_text(vs) + seq![','] + int_text(v as int),
    decreases vs.len(),
{
    let w = vs.push(v);
    assert(w[0] == vs[0]);
    assert(w.len() > 1);
    if vs.len() == 1 {
        assert(w.drop_first() =~= seq![v]);
        assert(values_text(seq![v]) == int_text(v as int));
        assert(values_text(vs) == int_text(vs[0] as int));
    } else {
        assert(w.drop_first() =~= vs.drop_first().push(v));
        lemma_values_text_push(vs.drop_first(), v);
        assert(values_text(vs.push(v)) =~= values_text(vs) + seq![','] + int_text(v as int));
    }
}

/// Writes the data segment `<max>:<v1>,...,<vn>` of a record.
pub fn render_data(max: i32, values: &[i32]) -> (r: String)
    ensures
        r@ == data_text(max, values@),
{
    let mut s = String::new();
    push_int(&mut s, max);
    proof {
        reveal_strlit(":");
    }
    s.append(":");
    let ghost head = s@;
    let mut i: usize = 0;
    while i < values.len()
        invariant
            i <= values@.len(),
            head == int_text(max as int) + seq![':'],
            s@ == head + values_text(values@.subrange(0, i as int)),
        decreases values@.len() - i,
    {
        let ghost done = values@.subrange(0, i as int);
        assert(values@.subrange(0, i as int + 1) =~= done.push(values@[i as int]));
        if i > 0 {
            proof {
                reveal_strlit(",");
            }
            s.append(",");
            push_int(&mut s, values[i]);
            proof {
                lemma_values_text_push(done, values@[i as int]);
            }
            assert(s@ =~= head + values_text(values@.subrange(0, i as int + 1)));
        } else {
            assert(values@.subrange(0, 0) =~= Seq::<i32>::empty());
            assert(s@ =~= head);
            push_int(&mut s, values[i]);
            assert(values@.subrange(0, 1) =~= seq![values@[0]]);
            assert(values_text(seq![values@[0]]) == int_text(values@[0] as int));
            assert(s@ =~= head + values_text(values@.subrange(0, i as int + 1)));
        }
        i = i + 1;
    }
    assert(values@.subrange(0, i as int) =~= values@);
    assert(s@ =~= data_text(max, values@));
    s
}

} // verus!
