//! The names of the files of a store.

use vstd::prelude::*;
use vstd::string::StringExecFns;

verus! {

/// The character of a decimal digit: the digits follow one another from `0` on.
pub open spec fn digit(d: nat) -> char {
    ('0' as int + d) as char
}

/// A number in decimal notation.
pub open spec fn decimal(n: nat) -> Seq<char>
    decreases n,
{
    if n < 10 {
        seq![digit(n)]
    } else {
        decimal(n / 10).push(digit(n % 10))
    }
}

/// Text with zeros in front, up to five characters.
pub open spec fn padded(s: Seq<char>) -> Seq<char> {
    if s.len() < 5 {
        Seq::new((5 - s.len()) as nat, |i: int| '0') + s
    } else {
        s
    }
}

/// The number that decimal digits denote, the highest first.
pub open spec fn value_of(s: Seq<char>) -> int
    decreases s.len(),
{
    if s.len() == 0 {
        0
    } else {
        10 * value_of(s.drop_last()) + (s.last() as int - '0' as int)
    }
}

proof fn decimal_denotes(n: nat)
    ensures
        value_of(decimal(n)) == n,
        decimal(n).len() > 0,
        forall|i: int| 0 <= i < decimal(n).len() ==> '0' <= #[trigger] decimal(n)[i] <= '9',
        n > 0 ==> decimal(n)[0] != '0',
        n < 10 ==> decimal(n).len() == 1,
    decreases n,
{
    let s = decimal(n);
    if n < 10 {
        assert(s.drop_last() =~= Seq::empty());
        reveal_with_fuel(value_of, 2);
        assert(digit(n) as int == '0' as int + n);
    } else {
        decimal_denotes(n / 10);
        let d = digit(n % 10);
        assert(d as int == '0' as int + n % 10);
        assert(s.drop_last() =~= decimal(n / 10));
        assert forall|i: int| 0 <= i < s.len() implies '0' <= #[trigger] s[i] <= '9' by {
            if i < s.len() - 1 {
                assert(s[i] == decimal(n / 10)[i]);
            }
        }
        assert(s[0] == decimal(n / 10)[0]);
    }
}

proof fn zeros_in_front(z: nat, s: Seq<char>)
    ensures
        value_of(Seq::new(z, |i: int| '0') + s) == value_of(s),
    decreases z + s.len(),
{
    let zeros = Seq::new(z, |i: int| '0');
    let all = zeros + s;
    if s.len() > 0 {
        assert(all.drop_last() =~= zeros + s.drop_last());
        zeros_in_front(z, s.drop_last());
    } else if z > 0 {
        let fewer = Seq::new((z - 1) as nat, |i: int| '0');
        assert(all.drop_last() =~= fewer + s);
        zeros_in_front((z - 1) as nat, s);
    } else {
        assert(all =~= s);
    }
}

/// **A file is named by its id in decimal**, with at least five digits and no more zeros in front
/// than that takes. So no two ids share a name.
pub proof fn files_are_named_by_id(n: nat)
    ensures
        value_of(padded(decimal(n))) == n,
        padded(decimal(n)).len() >= 5,
        forall|i: int|
            0 <= i < padded(decimal(n)).len() ==> '0' <= #[trigger] padded(decimal(n))[i] <= '9',
        padded(decimal(n)).len() > 5 ==> padded(decimal(n))[0] != '0',
{
    let s = decimal(n);
    decimal_denotes(n);
    if s.len() < 5 {
        zeros_in_front((5 - s.len()) as nat, s);
    }
}

/// **No two files share a name**: neither two tables, nor two logs, nor a table and a log.
pub proof fn files_have_names_of_their_own(a: nat, b: nat)
    ensures
        padded(decimal(a)) + ".sst"@ != padded(decimal(b)) + ".wal"@,
        a != b ==> padded(decimal(a)) + ".sst"@ != padded(decimal(b)) + ".sst"@,
        a != b ==> padded(decimal(a)) + ".wal"@ != padded(decimal(b)) + ".wal"@,
{
    reveal_strlit(".sst");
    reveal_strlit(".wal");
    files_are_named_by_id(a);
    files_are_named_by_id(b);
    let (x, y) = (padded(decimal(a)), padded(decimal(b)));
    let (n, m) = (x.len() as int, y.len() as int);
    assert((x + ".sst"@).last() == 't');
    assert((y + ".wal"@).last() == 'l');
    if x + ".sst"@ == y + ".sst"@ {
        assert((x + ".sst"@).len() == n + 4);
        assert((y + ".sst"@).len() == m + 4);
        assert((x + ".sst"@).take(n) =~= x);
        assert((y + ".sst"@).take(m) =~= y);
    }
    if x + ".wal"@ == y + ".wal"@ {
        assert((x + ".wal"@).len() == n + 4);
        assert((y + ".wal"@).len() == m + 4);
        assert((x + ".wal"@).take(n) =~= x);
        assert((y + ".wal"@).take(m) =~= y);
    }
}

fn append_digit(s: &mut String, d: usize)
    requires
        d < 10,
    ensures
        final(s)@ == old(s)@.push(digit(d as nat)),
{
    proof {
        reveal_strlit("0");
        reveal_strlit("1");
        reveal_strlit("2");
        reveal_strlit("3");
        reveal_strlit("4");
        reveal_strlit("5");
        reveal_strlit("6");
        reveal_strlit("7");
        reveal_strlit("8");
        reveal_strlit("9");
    }
    let text = match d {
        0 => "0",
        1 => "1",
        2 => "2",
        3 => "3",
        4 => "4",
        5 => "5",
        6 => "6",
        7 => "7",
        8 => "8",
        _ => "9",
    };
    s.append(text);
    assert(s@ =~= old(s)@.push(digit(d as nat)));
}

/// How many digits a number has.
fn digits(n: usize) -> (r: usize)
    ensures
        r == decimal(n as nat).len(),
        1 <= r <= 1 + n / 10,
    decreases n,
{
    if n < 10 {
        1
    } else {
        digits(n / 10) + 1
    }
}

fn append_decimal(s: &mut String, n: usize)
    ensures
        final(s)@ == old(s)@ + decimal(n as nat),
    decreases n,
{
    if n < 10 {
        append_digit(s, n);
        assert(s@ =~= old(s)@ + decimal(n as nat));
    } else {
        append_decimal(s, n / 10);
        append_digit(s, n % 10);
        assert(s@ =~= old(s)@ + decimal(n as nat));
    }
}

fn numbered_file(id: usize, extension: &str) -> (r: String)
    ensures
        r@ == padded(decimal(id as nat)) + extension@,
{
    let mut name = String::new();
    let width: usize = digits(id);
    let mut zeros: usize = 0;
    while width + zeros < 5
        invariant
            width == decimal(id as nat).len(),
            zeros <= 5,
            width < 5 ==> width + zeros <= 5,
            width >= 5 ==> zeros == 0,
            name@ == Seq::new(zeros as nat, |i: int| '0'),
        decreases 5 - zeros,
    {
        append_digit(&mut name, 0);
        zeros = zeros + 1;
        assert(name@ =~= Seq::new(zeros as nat, |i: int| '0'));
    }
    append_decimal(&mut name, id);
    name.append(extension);
    assert(name@ =~= padded(decimal(id as nat)) + extension@);
    name
}

/// The file name of a table.
pub fn sst_file_name(id: usize) -> (r: String)
    ensures
        r@ == padded(decimal(id as nat)) + ".sst"@,
{
    numbered_file(id, ".sst")
}

/// The file name of a write-ahead log.
pub fn wal_file_name(id: usize) -> (r: String)
    ensures
        r@ == padded(decimal(id as nat)) + ".wal"@,
{
    numbered_file(id, ".wal")
}

} // verus!
