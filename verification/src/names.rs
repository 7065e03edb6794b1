//! Names of functions and methods: `Type.method` is the full name of a method.

use vstd::prelude::*;
use vstd::string::{StringExecFns, StrSliceExecFns};

verus! {

/// The full name of a member of a type.
pub open spec fn full_name(owner: Seq<char>, member: Seq<char>) -> Seq<char> {
    owner.push('.') + member
}

/// Where the last dot of a name stands; `-1` where it has none.
pub open spec fn last_dot(name: Seq<char>) -> int
    decreases name.len(),
{
    if name.len() == 0 {
        -1
    } else if name.last() == '.' {
        name.len() - 1
    } else {
        last_dot(name.drop_last())
    }
}

/// Whether the name is that of a member.
pub open spec fn has_dot(name: Seq<char>) -> bool {
    last_dot(name) >= 0
}

/// The part of a member's full name in front of the last dot.
pub open spec fn owner_part(name: Seq<char>) -> Seq<char> {
    name.take(last_dot(name))
}

/// The part of a member's full name behind the last dot.
pub open spec fn member_part(name: Seq<char>) -> Seq<char> {
    name.skip(last_dot(name) + 1)
}

pub proof fn lemma_last_dot(name: Seq<char>)
    ensures
        -1 <= last_dot(name) < name.len(),
        has_dot(name) == name.contains('.'),
        has_dot(name) ==> name[last_dot(name)] == '.',
        forall|i: int| last_dot(name) < i < name.len() ==> name[i] != '.',
    decreases name.len(),
{
    if name.len() > 0 && name.last() != '.' {
        let rest = name.drop_last();
        lemma_last_dot(rest);
        assert forall|i: int| last_dot(name) < i < name.len() implies name[i] != '.' by {
            if i < rest.len() {
                assert(name[i] == rest[i]);
            }
        }
        if name.contains('.') {
            let i = choose|i: int| 0 <= i < name.len() && name[i] == '.';
            assert(rest[i] == '.');
        }
        if rest.contains('.') {
            let i = choose|i: int| 0 <= i < rest.len() && rest[i] == '.';
            assert(name[i] == '.');
        }
    } else if name.len() > 0 {
        assert(name[name.len() - 1] == '.');
    }
}

/// A member's full name splits into the owner and the member it was made of,
/// as long as the member's own name has no dot.
pub proof fn law_full_name_splits(owner: Seq<char>, member: Seq<char>)
    requires
        !member.contains('.'),
    ensures
        has_dot(full_name(owner, member)),
        owner_part(full_name(owner, member)) == owner,
        member_part(full_name(owner, member)) == member,
{
    let name = full_name(owner, member);
    lemma_last_dot(name);
    let k = owner.len() as int;
    assert(name[k] == '.');
    assert(name.contains('.'));
    let d = last_dot(name);
    if d > k {
        assert(member[d - k - 1] == '.');
    }
    assert(owner_part(name) =~= owner);
    assert(member_part(name) =~= member);
}

/// Distinct members have distinct full names, as long as the members' own
/// names have no dot.
pub proof fn law_full_names_are_distinct(a: Seq<char>, m: Seq<char>, b: Seq<char>, n: Seq<char>)
    requires
        !m.contains('.'),
        !n.contains('.'),
        full_name(a, m) == full_name(b, n),
    ensures
        a == b,
        m == n,
{
    law_full_name_splits(a, m);
    law_full_name_splits(b, n);
}

/// The full name of a member.
pub fn mangle(owner: &String, member: &String) -> (r: String)
    ensures
        r@ == full_name(owner@, member@),
{
    let mut r = owner.clone();
    r.append(".");
    r.append(member.as_str());
    proof {
        reveal_strlit(".");
    }
    assert(r@ =~= full_name(owner@, member@));
    r
}

/// The two parts of a member's full name, around its last dot.
pub fn split_member(name: &String) -> (r: Option<(String, String)>)
    ensures
        match r {
            Some(p) => has_dot(name@) && p.0@ == owner_part(name@) && p.1@ == member_part(name@),
            None => !has_dot(name@),
        },
{
    let s = name.as_str();
    let n = s.unicode_len();
    let mut i: usize = n;
    assert(name@.take(n as int) =~= name@);
    while i > 0
        invariant
            i <= n == s@.len(),
            s@ == name@,
            last_dot(name@) == last_dot(name@.take(i as int)),
        decreases i,
    {
        assert(name@.take(i as int).drop_last() =~= name@.take(i - 1));
        if s.get_char(i - 1) == '.' {
            let owner = s.substring_char(0, i - 1);
            let member = s.substring_char(i, n);
            return Some((owner.to_owned(), member.to_owned()));
        }
        i = i - 1;
    }
    None
}

/// A name is that of a member exactly where it has a dot, and the part behind
/// the last one has none.
pub proof fn law_members_have_a_dot(name: Seq<char>)
    ensures
        has_dot(name) <==> name.contains('.'),
        has_dot(name) ==> owner_part(name).push('.') + member_part(name) == name && !member_part(name).contains('.'),
    decreases name.len(),
{
    lemma_last_dot_is_last(name);
    if has_dot(name) {
        assert(owner_part(name).push('.') + member_part(name) =~= name);
    }
}

proof fn lemma_last_dot_is_last(name: Seq<char>)
    ensures
        -1 <= last_dot(name) < name.len(),
        has_dot(name) ==> name[last_dot(name)] == '.',
        forall|i: int| last_dot(name) < i < name.len() ==> #[trigger] name[i] != '.',
    decreases name.len(),
{
    if name.len() > 0 && name.last() != '.' {
        lemma_last_dot_is_last(name.drop_last());
        assert forall|i: int| last_dot(name) < i < name.len() implies #[trigger] name[i] != '.' by {
            if i < name.len() - 1 {
                assert(name.drop_last()[i] == name[i]);
            }
        }
    }
}

} // verus!
