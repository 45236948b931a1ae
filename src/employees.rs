//! Employees, as listed on a report.
use vstd::prelude::*;

verus! {

/// An employee.
#[derive(Debug)]
pub struct Employee {
    pub id: i32,
    /// The name of an employee as it will appear on the report.
    pub name: String,
    /// Value used for sorting employees: see `sort_name`.
    pub name_sort: String,
}

/// Index of the last space in `s`, or -1 where it holds none.
pub open spec fn last_space(s: Seq<char>) -> int
    decreases s.len(),
{
    if s.len() == 0 {
        -1
    } else if s.last() == ' ' {
        s.len() - 1
    } else {
        last_space(s.drop_last())
    }
}

/// `s` with its spaces taken out.
pub open spec fn without_spaces(s: Seq<char>) -> Seq<char>
    decreases s.len(),
{
    if s.len() == 0 {
        s
    } else if s.last() == ' ' {
        without_spaces(s.drop_last())
    } else {
        without_spaces(s.drop_last()).push(s.last())
    }
}

/// The last word of `name`, then ", ", then the words before it run together.
pub open spec fn sort_name_of(name: Seq<char>) -> Seq<char> {
    let i = last_space(name);
    name.subrange(i + 1, name.len() as int) + ", "@ + without_spaces(
        name.subrange(0, if i < 0 {
            0
        } else {
            i
        }),
    )
}

/// The value by which employees are sorted, made from a full name on the assumption
/// that its last word is the last name: "Ada B. Lovelace" gives "Lovelace, AdaB.".
pub fn sort_name(name: &str) -> (r: String)
    ensures
        r@ == sort_name_of(name@),
{
    let n = name.unicode_len();
    let mut found = false;
    let mut pos: usize = 0;
    let mut j: usize = 0;
    while j < n
        invariant
            n == name@.len(),
            0 <= j <= n,
            found ==> pos < j,
            last_space(name@.take(j as int)) == if found {
                pos as int
            } else {
                -1
            },
        decreases n - j,
    {
        assert(name@.take(j + 1).drop_last() =~= name@.take(j as int));
        if name.get_char(j) == ' ' {
            found = true;
            pos = j;
        }
        j = j + 1;
    }
    assert(name@.take(n as int) =~= name@);
    let start: usize = if found {
        pos + 1
    } else {
        0
    };
    let end: usize = if found {
        pos
    } else {
        0
    };
    let mut r = name.substring_char(start, n).to_owned();
    r.append(", ");
    let ghost head = r@;
    let mut k: usize = 0;
    while k < end
        invariant
            n == name@.len(),
            0 <= k <= end <= n,
            r@ == head + without_spaces(name@.subrange(0, k as int)),
        decreases end - k,
    {
        assert(name@.subrange(0, k + 1).drop_last() =~= name@.subrange(0, k as int));
        let c = name.get_char(k);
        if c != ' ' {
            r.append(name.substring_char(k, k + 1));
            assert(r@ =~= head + without_spaces(name@.subrange(0, k + 1)));
        }
        k = k + 1;
    }
    r
}

} // verus!
