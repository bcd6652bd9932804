//! The lines of a log, user by user.

use vstd::prelude::*;

use crate::counting::{
    lemma_count_more, lemma_count_some, lemma_picked, lemma_picked_all, lemma_picked_same, picked,
};
use crate::double::Double;
use crate::record::LogRecord;

verus! {

/// The lines of a user.
#[derive(Debug)]
pub struct UserGroup {
    pub user: u32,
    pub members: Vec<usize>,
}

/// The indexes of a user's lines.
pub open spec fn lines_of(logs: Seq<LogRecord>, user: u32) -> Seq<usize> {
    picked(logs.len(), |i: int| logs[i].user_id == user)
}

/// A user has a group.
pub open spec fn has_group(groups: Seq<UserGroup>, user: u32) -> bool {
    exists|g: int| 0 <= g < groups.len() && (#[trigger] groups[g]).user == user
}

/// One group for each user of the log, in ascending order, with all of the user's lines.
pub open spec fn grouping(logs: Seq<LogRecord>, groups: Seq<UserGroup>) -> bool {
    &&& forall|g: int, h: int| 0 <= g < h < groups.len() ==> groups[g].user < groups[h].user
    &&& forall|g: int|
        0 <= g < groups.len() ==> (#[trigger] groups[g]).members@ == lines_of(logs, groups[g].user)
    &&& forall|g: int| 0 <= g < groups.len() ==> (#[trigger] groups[g]).members@.len() > 0
    &&& forall|i: int|
        0 <= i < logs.len() ==> has_group(groups, (#[trigger] logs[i]).user_id)
}

/// A user has one of the first `n` lines.
spec fn seen(logs: Seq<LogRecord>, n: int, user: u32) -> bool {
    exists|i: int| 0 <= i < n && (#[trigger] logs[i]).user_id == user
}

/// The users of a log, in ascending order.
fn users_of(logs: &Vec<LogRecord>) -> (users: Vec<u32>)
    ensures
        forall|g: int, h: int| 0 <= g < h < users@.len() ==> users@[g] < users@[h],
        forall|i: int| 0 <= i < logs@.len() ==> users@.contains((#[trigger] logs@[i]).user_id),
        forall|g: int|
            0 <= g < users@.len() ==> seen(logs@, logs@.len() as int, #[trigger] users@[g]),
{
    let mut users: Vec<u32> = Vec::new();
    for i in 0..logs.len()
        invariant
            i <= logs@.len(),
            forall|g: int, h: int| 0 <= g < h < users@.len() ==> users@[g] < users@[h],
            forall|k: int| 0 <= k < i ==> users@.contains((#[trigger] logs@[k]).user_id),
            forall|g: int| 0 <= g < users@.len() ==> seen(logs@, i as int, #[trigger] users@[g]),
    {
        let user = logs[i].user_id;
        let mut p: usize = 0;
        while p < users.len() && users[p] < user
            invariant
                p <= users@.len(),
                forall|g: int| 0 <= g < p ==> users@[g] < user,
            decreases users@.len() - p,
        {
            p = p + 1;
        }
        if p < users.len() && users[p] == user {
            assert(users@[p as int] == user);
        } else {
            let ghost old_users = users@;
            users.insert(p, user);
            proof {
                assert(users@[p as int] == user);
                assert forall|k: int| 0 <= k < i implies users@.contains(
                    (#[trigger] logs@[k]).user_id,
                ) by {
                    assert(old_users.contains(logs@[k].user_id));
                    let q = choose|q: int|
                        0 <= q < old_users.len() && old_users[q] == logs@[k].user_id;
                    let q1 = if q < p { q } else { q + 1 };
                    assert(users@[q1] == logs@[k].user_id);
                }
                assert forall|g: int| 0 <= g < users@.len() implies seen(
                    logs@,
                    i + 1,
                    #[trigger] users@[g],
                ) by {
                    if g == p {
                        assert(logs@[i as int].user_id == users@[g]);
                    } else {
                        let q = if g < p { g } else { g - 1 };
                        assert(users@[g] == old_users[q]);
                        assert(seen(logs@, i as int, old_users[q]));
                    }
                }
            }
        }
        assert forall|g: int| 0 <= g < users@.len() implies seen(
            logs@,
            i + 1,
            #[trigger] users@[g],
        ) by {
            if seen(logs@, i as int, users@[g]) {
                let k = choose|k: int| 0 <= k < i && (#[trigger] logs@[k]).user_id == users@[g];
                assert(logs@[k].user_id == users@[g]);
            }
        }
    }
    users
}

/// Groups the lines of a log by user.
pub fn group_by_user(logs: &Vec<LogRecord>) -> (r: Vec<UserGroup>)
    ensures
        grouping(logs@, r@),
{
    let users = users_of(logs);
    let n = logs.len();
    let mut groups: Vec<UserGroup> = Vec::new();
    for g in 0..users.len()
        invariant
            n == logs@.len(),
            groups@.len() == g,
            g <= users@.len(),
            forall|h: int|
                0 <= h < g ==> (#[trigger] groups@[h]).user == users@[h] && groups@[h].members@
                    == lines_of(logs@, users@[h]),
    {
        let user = users[g];
        let ghost p = |i: int| logs@[i].user_id == user;
        let mut members: Vec<usize> = Vec::new();
        for i in 0..n
            invariant
                n == logs@.len(),
                p == |i: int| logs@[i].user_id == user,
                members@ == picked(i as nat, p),
        {
            if logs[i].user_id == user {
                members.push(i);
            }
        }
        groups.push(UserGroup { user, members });
    }
    proof {
        assert forall|g: int| 0 <= g < groups@.len() implies (#[trigger] groups@[g]).members@.len()
            > 0 by {
            let user = users@[g];
            let p = |i: int| logs@[i].user_id == user;
            assert(seen(logs@, logs@.len() as int, users@[g]));
            let i = choose|i: int| 0 <= i < logs@.len() && (#[trigger] logs@[i]).user_id == user;
            assert(p(i));
            lemma_count_some(logs@.len(), p);
            lemma_picked(logs@.len(), p);
        }
        assert forall|i: int| 0 <= i < logs@.len() implies has_group(
            groups@,
            (#[trigger] logs@[i]).user_id,
        ) by {
            assert(users@.contains(logs@[i].user_id));
            let g = choose|g: int| 0 <= g < users@.len() && users@[g] == logs@[i].user_id;
            assert(groups@[g].user == logs@[i].user_id);
        }
    }
    groups
}

/// Those of some items that belong to the given lines.
pub open spec fn own<T>(items: Seq<T>, members: Seq<usize>) -> Seq<T> {
    Seq::new(members.len(), |k: int| items[members[k] as int])
}

/// The time stamps of some lines.
pub fn times_of(logs: &Vec<LogRecord>, members: &Vec<usize>) -> (r: Vec<i64>)
    requires
        forall|k: int| 0 <= k < members@.len() ==> (#[trigger] members@[k]) < logs@.len(),
    ensures
        r@ == Seq::new(
            members@.len(),
            |k: int| own(logs@, members@)[k].timestamp.epoch,
        ),
{
    let mut r: Vec<i64> = Vec::new();
    for k in 0..members.len()
        invariant
            forall|k: int| 0 <= k < members@.len() ==> (#[trigger] members@[k]) < logs@.len(),
            r@.len() == k,
            forall|j: int|
                0 <= j < k ==> r@[j] == logs@[#[trigger] members@[j] as int].timestamp.epoch,
    {
        assert(members@[k as int] < logs@.len());
        r.push(logs[members[k]].timestamp.epoch);
    }
    assert(r@ =~= Seq::new(members@.len(), |k: int| own(logs@, members@)[k].timestamp.epoch));
    r
}

/// Those of a user's lines that stand at the given points.
pub fn lines_at(members: &Vec<usize>, points: &Vec<usize>) -> (r: Vec<usize>)
    requires
        forall|k: int| 0 <= k < points@.len() ==> (#[trigger] points@[k]) < members@.len(),
    ensures
        r@ == own(members@, points@),
{
    let mut r: Vec<usize> = Vec::new();
    for k in 0..points.len()
        invariant
            forall|k: int| 0 <= k < points@.len() ==> (#[trigger] points@[k]) < members@.len(),
            r@.len() == k,
            forall|j: int| 0 <= j < k ==> r@[j] == members@[#[trigger] points@[j] as int],
    {
        assert(points@[k as int] < members@.len());
        r.push(members[points[k]]);
    }
    assert(r@ =~= own(members@, points@));
    r
}

/// A line's place: the group, and the position there.
pub open spec fn placed(groups: Seq<UserGroup>, g: int, k: int, i: int) -> bool {
    0 <= g < groups.len() && 0 <= k < groups[g].members@.len() && groups[g].members@[k] == i
}

/// The members of the groups are lines of the log.
pub proof fn lemma_members_in_log(logs: Seq<LogRecord>, groups: Seq<UserGroup>)
    requires
        logs.len() <= usize::MAX,
        grouping(logs, groups),
    ensures
        forall|g: int, k: int|
            0 <= g < groups.len() && 0 <= k < groups[g].members@.len() ==> (
            #[trigger] groups[g].members@[k]) < logs.len(),
{
    assert forall|g: int, k: int|
        0 <= g < groups.len() && 0 <= k < groups[g].members@.len() implies (
    #[trigger] groups[g].members@[k]) < logs.len() by {
        lemma_picked(logs.len(), |i: int| logs[i].user_id == groups[g].user);
        assert(groups[g].members@ == lines_of(logs, groups[g].user));
    }
}

/// No line has two places in the groups.
pub proof fn lemma_places_differ(
    logs: Seq<LogRecord>,
    groups: Seq<UserGroup>,
    g: int,
    k: int,
    h: int,
    l: int,
)
    requires
        logs.len() <= usize::MAX,
        grouping(logs, groups),
        0 <= g < groups.len(),
        0 <= h < groups.len(),
        0 <= k < groups[g].members@.len(),
        0 <= l < groups[h].members@.len(),
        groups[g].members@[k] == groups[h].members@[l],
    ensures
        g == h,
        k == l,
{
    let p = |i: int| logs[i].user_id == groups[g].user;
    let q = |i: int| logs[i].user_id == groups[h].user;
    lemma_picked(logs.len(), p);
    lemma_picked(logs.len(), q);
    assert(groups[g].members@ == picked(logs.len(), p));
    assert(groups[h].members@ == picked(logs.len(), q));
    let i = groups[g].members@[k] as int;
    assert(p(i) && q(i));
    if g < h {
        assert(groups[g].user < groups[h].user);
    }
    if h < g {
        assert(groups[h].user < groups[g].user);
    }
}

/// Finds the group of a line, and its place there.
pub fn place_of(logs: &Vec<LogRecord>, groups: &Vec<UserGroup>, i: usize) -> (r: (usize, usize))
    requires
        grouping(logs@, groups@),
        i < logs@.len(),
    ensures
        r.0 < groups@.len(),
        r.1 < groups@[r.0 as int].members@.len(),
        groups@[r.0 as int].members@[r.1 as int] == i,
{
    let user = logs[i].user_id;
    assert(has_group(groups@, user));
    let ghost h = choose|h: int|
        0 <= h < groups@.len() && (#[trigger] groups@[h]).user == logs@[i as int].user_id;
    let n = groups.len();
    let mut g: usize = 0;
    while groups[g].user != user
        invariant
            n == groups@.len(),
            g <= h < n,
            groups@[h].user == user,
        decreases n - g,
    {
        g = g + 1;
    }
    proof {
        let p = |i: int| logs@[i].user_id == groups@[g as int].user;
        assert(logs@.len() == logs.len());
        lemma_picked(logs@.len(), p);
        assert(p(i as int));
        assert(groups@[g as int].members@ == lines_of(logs@, groups@[g as int].user));
    }
    let ghost members = groups@[g as int].members@;
    let ghost l = choose|l: int| 0 <= l < members.len() && members[l] == i;
    let m = groups[g].members.len();
    let mut k: usize = 0;
    while groups[g].members[k] != i
        invariant
            g < groups@.len(),
            m == groups@[g as int].members@.len(),
            k <= l < m,
            groups@[g as int].members@[l] == i,
        decreases m - k,
    {
        k = k + 1;
    }
    (g, k)
}

/// What was found for the lines of each group stands in the places of those lines.
pub open spec fn put_back(
    groups: Seq<UserGroup>,
    found: Seq<Vec<Double>>,
    r: Seq<Double>,
) -> bool {
    forall|g: int, k: int|
        0 <= g < groups.len() && 0 <= k < groups[g].members@.len()
            ==> r[#[trigger] groups[g].members@[k] as int] == found[g]@[k]
}

/// Puts what was found group by group, for each line, back in the order of the log.
pub fn in_log_order(
    logs: &Vec<LogRecord>,
    groups: &Vec<UserGroup>,
    found: &Vec<Vec<Double>>,
) -> (r: Vec<Double>)
    requires
        grouping(logs@, groups@),
        found@.len() == groups@.len(),
        forall|g: int|
            0 <= g < groups@.len() ==> (#[trigger] found@[g])@.len() == groups@[g].members@.len(),
    ensures
        r@.len() == logs@.len(),
        put_back(groups@, found@, r@),
{
    let mut r: Vec<Double> = Vec::new();
    for i in 0..logs.len()
        invariant
            grouping(logs@, groups@),
            found@.len() == groups@.len(),
            forall|g: int|
                0 <= g < groups@.len() ==> (#[trigger] found@[g])@.len()
                    == groups@[g].members@.len(),
            r@.len() == i,
            forall|g: int, k: int|
                0 <= g < groups@.len() && 0 <= k < groups@[g].members@.len()
                    && groups@[g].members@[k] < i ==> r@[#[trigger] groups@[g].members@[k] as int]
                    == found@[g]@[k],
    {
        let (g, k) = place_of(logs, groups, i);
        assert(found@[g as int]@.len() == groups@[g as int].members@.len());
        r.push(found[g][k]);
        proof {
            assert forall|h: int, l: int|
                0 <= h < groups@.len() && 0 <= l < groups@[h].members@.len()
                    && groups@[h].members@[l] < i + 1 implies r@[
                #[trigger] groups@[h].members@[l] as int] == found@[h]@[l] by {
                if groups@[h].members@[l] == i {
                    lemma_places_differ(logs@, groups@, g as int, k as int, h, l);
                }
            }
        }
    }
    proof {
        lemma_members_in_log(logs@, groups@);
    }
    r
}

/// Each line of a log belongs to exactly one user's group, so that it is judged once, among the
/// lines of its own user.
pub proof fn law_every_line_has_one_place(logs: Seq<LogRecord>, groups: Seq<UserGroup>, i: int)
    requires
        logs.len() <= usize::MAX,
        grouping(logs, groups),
        0 <= i < logs.len(),
    ensures
        exists|g: int, k: int| placed(groups, g, k, i),
        forall|g: int, k: int, h: int, l: int|
            #[trigger] placed(groups, g, k, i) && #[trigger] placed(groups, h, l, i) ==> g == h && k
                == l,
        forall|g: int, k: int| #[trigger]
            placed(groups, g, k, i) ==> groups[g].user == logs[i].user_id,
{
    assert(has_group(groups, logs[i].user_id));
    let g = choose|g: int| 0 <= g < groups.len() && (#[trigger] groups[g]).user == logs[i].user_id;
    assert(groups[g].members@ == lines_of(logs, groups[g].user));
    let p = |j: int| logs[j].user_id == groups[g].user;
    lemma_picked(logs.len(), p);
    assert(p(i));
    let members = groups[g].members@;
    let k = choose|k: int| 0 <= k < members.len() && members[k] == i as usize;
    assert(placed(groups, g, k, i));
    assert forall|g1: int, k1: int, h: int, l: int|
        #[trigger] placed(groups, g1, k1, i) && #[trigger] placed(groups, h, l, i) implies g1 == h
        && k1 == l by {
        lemma_places_differ(logs, groups, g1, k1, h, l);
    }
}

/// Lines are grouped by their users alone: with other labels, times, sizes or operations the
/// groups are the same.
pub proof fn law_groups_go_by_user(
    logs: Seq<LogRecord>,
    others: Seq<LogRecord>,
    groups: Seq<UserGroup>,
)
    requires
        others.len() == logs.len(),
        forall|i: int| 0 <= i < logs.len() ==> (#[trigger] others[i]).user_id == logs[i].user_id,
        grouping(logs, groups),
    ensures
        grouping(others, groups),
{
    assert forall|g: int| 0 <= g < groups.len() implies (#[trigger] groups[g]).members@ == lines_of(
        others,
        groups[g].user,
    ) by {
        let p = |i: int| logs[i].user_id == groups[g].user;
        let q = |i: int| others[i].user_id == groups[g].user;
        lemma_picked_same(logs.len(), p, q);
        assert(lines_of(logs, groups[g].user) == picked(logs.len(), p));
    }
    assert forall|i: int| 0 <= i < others.len() implies has_group(
        groups,
        (#[trigger] others[i]).user_id,
    ) by {
        assert(has_group(groups, logs[i].user_id));
    }
}

/// In the log of a user's own lines there is one group, the user's, with all lines in order.
pub proof fn law_user_alone_is_one_group(
    logs: Seq<LogRecord>,
    groups: Seq<UserGroup>,
    g: int,
    alone: Seq<UserGroup>,
)
    requires
        logs.len() <= usize::MAX,
        grouping(logs, groups),
        0 <= g < groups.len(),
        grouping(own(logs, groups[g].members@), alone),
    ensures
        alone.len() == 1,
        alone[0].user == groups[g].user,
        alone[0].members@ == Seq::new(groups[g].members@.len(), |k: int| k as usize),
        groups[g].members@.len() <= logs.len(),
{
    let members = groups[g].members@;
    let user = groups[g].user;
    let mine = own(logs, members);
    let n = mine.len();
    let p = |i: int| logs[i].user_id == user;
    lemma_picked(logs.len(), p);
    assert(members == lines_of(logs, user));
    lemma_count_more(logs.len(), p, p);
    assert forall|k: int| 0 <= k < n implies (#[trigger] mine[k]).user_id == user by {
        assert(p(members[k] as int));
    }
    assert forall|h: int| 0 <= h < alone.len() implies (#[trigger] alone[h]).user == user by {
        let q = |i: int| mine[i].user_id == alone[h].user;
        assert(alone[h].members@ == lines_of(mine, alone[h].user));
        assert(alone[h].members@.len() > 0);
        lemma_picked(n, q);
        assert(q(alone[h].members@[0] as int));
        assert(mine[alone[h].members@[0] as int].user_id == user);
    }
    assert(members.len() > 0);
    assert(has_group(alone, mine[0].user_id));
    if alone.len() > 1 {
        assert(alone[0].user < alone[1].user);
    }
    let q = |i: int| mine[i].user_id == user;
    lemma_picked_all(n, q);
    assert(alone[0].members@ == lines_of(mine, user));
}

/// What is put back in the order of the log is, for a user's lines, what is put back in the log of
/// the user alone.
pub proof fn law_order_of_the_user_alone(
    logs: Seq<LogRecord>,
    groups: Seq<UserGroup>,
    found: Seq<Vec<Double>>,
    r: Seq<Double>,
    g: int,
    alone: Seq<UserGroup>,
    r_alone: Seq<Double>,
)
    requires
        logs.len() <= usize::MAX,
        grouping(logs, groups),
        0 <= g < groups.len(),
        grouping(own(logs, groups[g].members@), alone),
        found.len() == groups.len(),
        put_back(groups, found, r),
        put_back(alone, seq![found[g]], r_alone),
        r_alone.len() == groups[g].members@.len(),
    ensures
        r_alone == own(r, groups[g].members@),
{
    law_user_alone_is_one_group(logs, groups, g, alone);
    let members = groups[g].members@;
    assert forall|k: int| 0 <= k < members.len() implies r_alone[k] == r[members[k] as int] by {
        assert(alone[0].members@[k] == k);
        assert(r_alone[alone[0].members@[k] as int] == seq![found[g]][0]@[k]);
        assert(r[groups[g].members@[k] as int] == found[g]@[k]);
    }
    assert(r_alone =~= own(r, members));
}

/// A user's group holds every line of the user and no other, in the order of the log, and the
/// groups stand in the order of the users' numbers.
pub proof fn law_groups_hold_their_users(
    logs: Seq<LogRecord>,
    groups: Seq<UserGroup>,
    g: int,
    i: int,
)
    requires
        logs.len() <= usize::MAX,
        grouping(logs, groups),
        0 <= g < groups.len(),
        0 <= i < logs.len(),
    ensures
        groups[g].members@.contains(i as usize) <==> logs[i].user_id == groups[g].user,
        groups[g].members@.len() > 0,
        forall|k: int, l: int|
            0 <= k < l < groups[g].members@.len() ==> groups[g].members@[k] < groups[g].members@[l],
        forall|k: int|
            0 <= k < groups[g].members@.len() ==> (#[trigger] groups[g].members@[k]) < logs.len(),
        forall|h: int| g < h < groups.len() ==> groups[g].user < (#[trigger] groups[h]).user,
        exists|h: int| 0 <= h < groups.len() && (#[trigger] groups[h]).user == logs[i].user_id,
{
    let members = groups[g].members@;
    assert(members == lines_of(logs, groups[g].user));
    let p = |j: int| logs[j].user_id == groups[g].user;
    lemma_picked(logs.len(), p);
    assert(p(i) == (logs[i].user_id == groups[g].user));
    if members.contains(i as usize) {
        let k = choose|k: int| 0 <= k < members.len() && members[k] == i as usize;
        assert(p(members[k] as int));
    }
    assert(has_group(groups, logs[i].user_id));
}

/// What belongs to some lines stands in their order.
pub proof fn law_own_items<T>(items: Seq<T>, members: Seq<usize>, k: int)
    requires
        0 <= k < members.len(),
    ensures
        own(items, members).len() == members.len(),
        own(items, members)[k] == items[members[k] as int],
{
}

/// What was found for a line stands at that line.
pub proof fn law_found_stands_at_its_line(
    groups: Seq<UserGroup>,
    found: Seq<Vec<Double>>,
    r: Seq<Double>,
    g: int,
    k: int,
    i: int,
)
    requires
        put_back(groups, found, r),
        0 <= g < groups.len(),
        0 <= k < groups[g].members@.len(),
        groups[g].members@[k] == i,
    ensures
        r[i] == found[g]@[k],
        placed(groups, g, k, i),
{
}

} // verus!
