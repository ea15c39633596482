//! Names: tables from names to numbers, the labels of tile cells, and the
//! reading of tile numbers.

use vstd::prelude::*;
use vstd::string::{StrSliceExecFns, StringExecFns};

verus! {

/// One binding of a name table.
pub struct Binding {
    pub name: String,
    pub value: u32,
}

/// A table from names to numbers. A later binding of a name hides the
/// earlier ones.
pub struct NameTable {
    bindings: Vec<Binding>,
}

/// The value bound to `key`: that of the last binding with this name.
pub open spec fn bound(bindings: Seq<(Seq<char>, u32)>, key: Seq<char>) -> Option<u32>
    decreases bindings.len(),
{
    if bindings.len() == 0 {
        None
    } else if bindings.last().0 == key {
        Some(bindings.last().1)
    } else {
        bound(bindings.drop_last(), key)
    }
}

impl View for NameTable {
    type V = Seq<(Seq<char>, u32)>;

    closed spec fn view(&self) -> Seq<(Seq<char>, u32)> {
        Seq::new(self.bindings@.len(), |i: int| (self.bindings@[i].name@, self.bindings@[i].value))
    }
}

impl NameTable {
    /// The empty table.
    pub fn new() -> (t: NameTable)
        ensures
            t@ == Seq::<(Seq<char>, u32)>::empty(),
    {
        let t = NameTable { bindings: Vec::new() };
        assert(t@ =~= Seq::<(Seq<char>, u32)>::empty());
        t
    }

    /// Binds `name` to `value`, hiding any earlier binding of the name.
    pub fn bind(&mut self, name: String, value: u32)
        ensures
            final(self)@ == old(self)@.push((name@, value)),
    {
        self.bindings.push(Binding { name, value });
        assert(self@ =~= old(self)@.push((name@, value)));
    }

    /// The value bound to `key`, if any.
    pub fn get(&self, key: &str) -> (r: Option<u32>)
        ensures
            r == bound(self@, key@),
    {
        let wanted: String = key.to_string();
        let mut i: usize = self.bindings.len();
        assert(self@.take(i as int) =~= self@);
        while i > 0
            invariant
                i <= self.bindings.len(),
                wanted@ == key@,
                bound(self@, key@) == bound(self@.take(i as int), key@),
            decreases i,
        {
            i -= 1;
            proof {
                let head = self@.take(i + 1);
                assert(head.drop_last() =~= self@.take(i as int));
                assert(head.last() == self@[i as int]);
            }
            if self.bindings[i].name == wanted {
                return Some(self.bindings[i].value);
            }
        }
        assert(self@.take(0).len() == 0);
        None
    }
}

/// The character of a decimal digit.
pub open spec fn digit_char(d: int) -> char {
    if d == 0 {
        '0'
    } else if d == 1 {
        '1'
    } else if d == 2 {
        '2'
    } else if d == 3 {
        '3'
    } else if d == 4 {
        '4'
    } else if d == 5 {
        '5'
    } else if d == 6 {
        '6'
    } else if d == 7 {
        '7'
    } else if d == 8 {
        '8'
    } else {
        '9'
    }
}

/// The decimal digits of a number, without leading zeros.
pub open spec fn decimal(n: nat) -> Seq<char>
    decreases n,
{
    if n < 10 {
        seq![digit_char(n as int)]
    } else {
        decimal(n / 10).push(digit_char((n % 10) as int))
    }
}

/// The label of the tile cell that lies `offset` tile-memory units into
/// the definition called `name`: the name, `" + "`, and the offset in
/// decimal.
pub open spec fn label_text(name: Seq<char>, offset: u32) -> Seq<char> {
    name + seq![' ', '+', ' '] + decimal(offset as nat)
}

fn digit_str(d: u32) -> (s: &'static str)
    requires
        d < 10,
    ensures
        s@ == seq![digit_char(d as int)],
{
    proof {
        reveal_strlit("0");
        reveal_strlit("1");
        reveal_strlit("2");
        reveal_strlit("3");
        reveal_strlit("4");
        reveal_strlit("5");
        reveal_strlit("6");
        reveal_strlit("7");
        reveal_strlit("8");
        reveal_strlit("9");
    }
    let s = if d == 0 {
        "0"
    } else if d == 1 {
        "1"
    } else if d == 2 {
        "2"
    } else if d == 3 {
        "3"
    } else if d == 4 {
        "4"
    } else if d == 5 {
        "5"
    } else if d == 6 {
        "6"
    } else if d == 7 {
        "7"
    } else if d == 8 {
        "8"
    } else {
        "9"
    };
    assert(s@ =~= seq![digit_char(d as int)]);
    s
}

fn push_decimal(s: &mut String, n: u32)
    ensures
        final(s)@ == old(s)@ + decimal(n as nat),
    decreases n,
{
    if n >= 10 {
        push_decimal(s, n / 10);
    }
    s.append(digit_str(n % 10));
    assert(s@ =~= old(s)@ + decimal(n as nat));
}

/// Writes the label of a tile cell.
pub fn label(name: &str, offset: u32) -> (r: String)
    ensures
        r@ == label_text(name@, offset),
{
    proof {
        reveal_strlit(" + ");
    }
    let mut s = String::from_str(name);
    s.append(" + ");
    push_decimal(&mut s, offset);
    assert(s@ =~= label_text(name@, offset));
    s
}

/// The value of a decimal digit.
pub open spec fn digit_value(c: char) -> Option<int> {
    if c == '0' {
        Some(0int)
    } else if c == '1' {
        Some(1int)
    } else if c == '2' {
        Some(2int)
    } else if c == '3' {
        Some(3int)
    } else if c == '4' {
        Some(4int)
    } else if c == '5' {
        Some(5int)
    } else if c == '6' {
        Some(6int)
    } else if c == '7' {
        Some(7int)
    } else if c == '8' {
        Some(8int)
    } else if c == '9' {
        Some(9int)
    } else {
        None
    }
}

/// Every character is a decimal digit.
pub open spec fn all_digits(s: Seq<char>) -> bool {
    forall|i: int| 0 <= i < s.len() ==> digit_value(#[trigger] s[i]).is_some()
}

/// The number that a string of decimal digits writes.
pub open spec fn digits_value(s: Seq<char>) -> int
    decreases s.len(),
{
    if s.len() == 0 {
        0
    } else {
        digits_value(s.drop_last()) * 10 + match digit_value(s.last()) {
            Some(d) => d,
            None => 0,
        }
    }
}

/// The tile number that a reference writes, if it writes one: an optional
/// `+`, then one or more decimal digits whose value fits in 32 bits.
pub open spec fn number_of(s: Seq<char>) -> Option<u32> {
    let body = if s.len() > 0 && s[0] == '+' {
        s.subrange(1, s.len() as int)
    } else {
        s
    };
    if body.len() >= 1 && all_digits(body) && digits_value(body) <= u32::MAX {
        Some(digits_value(body) as u32)
    } else {
        None
    }
}

/// A string of digits writes at least what any of its prefixes writes.
proof fn lemma_digits_value_grows(s: Seq<char>, k: int)
    requires
        0 <= k <= s.len(),
    ensures
        0 <= digits_value(s.take(k)) <= digits_value(s),
    decreases s.len(),
{
    if k == s.len() {
        assert(s.take(k) =~= s);
        lemma_digits_value_nonneg(s);
    } else {
        lemma_digits_value_grows(s.drop_last(), k);
        assert(s.drop_last().take(k) =~= s.take(k));
    }
}

proof fn lemma_digits_value_nonneg(s: Seq<char>)
    ensures
        0 <= digits_value(s),
    decreases s.len(),
{
    if s.len() > 0 {
        lemma_digits_value_nonneg(s.drop_last());
    }
}

fn digit_of(c: char) -> (r: Option<u64>)
    ensures
        match r {
            Some(d) => digit_value(c) == Some(d as int) && d < 10,
            None => digit_value(c).is_none(),
        },
{
    if c == '0' {
        Some(0)
    } else if c == '1' {
        Some(1)
    } else if c == '2' {
        Some(2)
    } else if c == '3' {
        Some(3)
    } else if c == '4' {
        Some(4)
    } else if c == '5' {
        Some(5)
    } else if c == '6' {
        Some(6)
    } else if c == '7' {
        Some(7)
    } else if c == '8' {
        Some(8)
    } else if c == '9' {
        Some(9)
    } else {
        None
    }
}

/// Reads a tile number: an optional `+`, then decimal digits. Anything
/// else, and a number that does not fit in 32 bits, is no number.
pub fn parse_number(s: &str) -> (r: Option<u32>)
    ensures
        r == number_of(s@),
{
    let n: usize = s.unicode_len();
    let start: usize = if n > 0 && s.get_char(0) == '+' {
        1
    } else {
        0
    };
    let ghost body = s@.subrange(start as int, n as int);
    assert(start == 0 ==> body =~= s@);
    if start == n {
        return None;
    }
    let mut acc: u64 = 0;
    let mut i: usize = start;
    while i < n
        invariant
            start <= i <= n,
            n == s@.len(),
            start == (if s@.len() > 0 && s@[0] == '+' {
                1int
            } else {
                0int
            }),
            body == s@.subrange(start as int, n as int),
            start == 0 ==> body == s@,
            all_digits(body.take(i - start)),
            acc == digits_value(body.take(i - start)),
            acc <= u32::MAX,
        decreases n - i,
    {
        let c = s.get_char(i);
        let ghost head = body.take(i - start + 1);
        proof {
            assert(head.drop_last() =~= body.take(i - start));
            assert(head.last() == c);
            assert(body[i - start] == c);
            assert(digits_value(head) == digits_value(head.drop_last()) * 10 + match digit_value(
                head.last(),
            ) {
                Some(d) => d,
                None => 0,
            });
        }
        match digit_of(c) {
            None => {
                assert(digit_value(body[i - start]).is_none());
                return None;
            },
            Some(d) => {
                let next: u64 = acc * 10 + d;
                if next > 0xffff_ffff {
                    proof {
                        lemma_digits_value_grows(body, i - start + 1);
                    }
                    return None;
                }
                acc = next;
                assert forall|k: int| 0 <= k < head.len() implies digit_value(
                    #[trigger] head[k],
                ).is_some() by {
                    if k < head.len() - 1 {
                        assert(head[k] == body.take(i - start)[k]);
                    }
                }
            },
        }
        i += 1;
    }
    assert(body.take(n - start) =~= body);
    Some(acc as u32)
}

} // verus!
