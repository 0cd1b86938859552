//! The pure half of the identity lookup a UI performs for display: turning
//! device ids into community ids for the remote profile query, and putting
//! the returned profile summaries back into device order.  The network call
//! itself is the caller's task and never touches this module.

use vstd::prelude::*;

verus! {

use crate::vdf::{Device, is_digits, is_digit};

/// What can go wrong while resolving device ids to user profiles.
#[derive(Debug)]
pub enum Error {
    /// A device id is not a number a community id can be derived from.
    InvalidID,
    /// The remote profile query failed; raised by the network layer, never
    /// by the pure core.
    RequestFailed,
}

/// One resolved user, ready for display.
#[derive(Debug, Hash)]
pub struct User {
    /// The user's display name.
    pub personaname: String,
    /// Where the user's avatar image lives.
    pub uri: String,
}

/// One profile summary as the remote lookup returns it, reduced to the
/// plain values this module reads.
#[derive(Debug)]
pub struct Summary {
    /// The community id the summary belongs to.
    pub steamid: u64,
    /// The user's display name.
    pub personaname: String,
    /// Where the user's avatar image lives.
    pub avatarfull: String,
}

/// The offset between an account id and the community id the remote
/// profile query expects.
pub const COMMUNITY_ID_BASE: u64 = 76561197960265728;

/// The number a decimal digit string denotes.
pub open spec fn digits_value(s: Seq<u8>) -> int
    decreases s.len(),
{
    if s.len() == 0 {
        0
    } else {
        digits_value(s.drop_last()) * 10 + (s.last() - 48)
    }
}

/// A record id from which a community id can be derived without leaving
/// `u64`.
pub open spec fn resolvable(id: Seq<u8>) -> bool {
    is_digits(id) && digits_value(id) + COMMUNITY_ID_BASE <= u64::MAX
}

/// A digit string denotes a non-negative number.
proof fn lemma_digits_value_nonneg(s: Seq<u8>)
    requires
        forall|i: int| 0 <= i < s.len() ==> is_digit(#[trigger] s[i]),
    ensures
        0 <= digits_value(s),
    decreases s.len(),
{
    if s.len() > 0 {
        assert forall|i: int| 0 <= i < s.drop_last().len() implies is_digit(
            #[trigger] s.drop_last()[i],
        ) by {
            assert(s.drop_last()[i] == s[i]);
        };
        lemma_digits_value_nonneg(s.drop_last());
    }
}

/// Reading more digits never shrinks the denoted number.
proof fn lemma_digits_value_extend(s: Seq<u8>, j: int, k: int)
    requires
        0 <= j <= k <= s.len(),
        forall|i: int| 0 <= i < k ==> is_digit(#[trigger] s[i]),
    ensures
        digits_value(s.subrange(0, j)) <= digits_value(s.subrange(0, k)),
    decreases k - j,
{
    if j < k {
        lemma_digits_value_extend(s, j, k - 1);
        let a = s.subrange(0, k - 1);
        let w = s.subrange(0, k);
        assert(w.drop_last() =~= a);
        assert(w.last() == s[k - 1]);
        assert forall|i: int| 0 <= i < a.len() implies is_digit(#[trigger] a[i]) by {
            assert(a[i] == s[i]);
        };
        lemma_digits_value_nonneg(a);
        assert(digits_value(w) == digits_value(a) * 10 + (s[k - 1] - 48));
    }
}

/// The number a digit string denotes, when it is one and fits in `u64`.
pub fn parse_u64(v: &Vec<u8>) -> (r: Option<u64>)
    ensures
        (r is Some <==> is_digits(v@) && digits_value(v@) <= u64::MAX),
        match r {
            Some(n) => n as int == digits_value(v@),
            None => true,
        },
{
    if v.len() == 0 {
        return None;
    }
    let mut acc: u64 = 0;
    let mut j: usize = 0;
    proof {
        assert(v@.subrange(0, 0) =~= Seq::<u8>::empty());
    }
    while j < v.len()
        invariant
            j <= v.len(),
            forall|k: int| 0 <= k < j ==> is_digit(#[trigger] v@[k]),
            acc as int == digits_value(v@.subrange(0, j as int)),
        decreases v.len() - j,
    {
        let b = v[j];
        if b < 48 || b > 57 {
            return None;
        }
        let d = (b - 48) as u64;
        let wide: u128 = acc as u128 * 10 + d as u128;
        proof {
            assert(v@.subrange(0, j + 1 as int).drop_last() =~= v@.subrange(0, j as int));
            assert(v@.subrange(0, j + 1 as int).last() == v@[j as int]);
            assert(digits_value(v@.subrange(0, j + 1 as int)) == acc as int * 10 + d as int);
        }
        if wide > u64::MAX as u128 {
            proof {
                if is_digits(v@) {
                    lemma_digits_value_extend(v@, j + 1 as int, v@.len() as int);
                    assert(v@.subrange(0, v@.len() as int) =~= v@);
                }
            }
            return None;
        }
        acc = acc * 10 + d;
        j = j + 1;
    }
    proof {
        assert(v@.subrange(0, v@.len() as int) =~= v@);
    }
    Some(acc)
}

/// The community ids behind the devices' account ids, in device order.
/// Fails with `InvalidID` exactly when some id is not a digit string whose
/// community id fits in `u64`.
pub fn community_ids(devices: &Vec<Device>) -> (r: Result<Vec<u64>, Error>)
    ensures
        (r is Ok <==> forall|i: int|
            0 <= i < devices@.len() ==> resolvable(#[trigger] devices@[i]@.id)),
        match r {
            Ok(ids) => ids@.len() == devices@.len() && forall|i: int|
                0 <= i < devices@.len() ==> #[trigger] ids@[i] as int == digits_value(
                    devices@[i]@.id,
                ) + COMMUNITY_ID_BASE,
            Err(e) => e == Error::InvalidID,
        },
{
    let mut ids: Vec<u64> = Vec::new();
    let mut j: usize = 0;
    while j < devices.len()
        invariant
            j <= devices.len(),
            ids@.len() == j,
            forall|k: int| 0 <= k < j ==> resolvable(#[trigger] devices@[k]@.id),
            forall|k: int|
                0 <= k < j ==> #[trigger] ids@[k] as int == digits_value(devices@[k]@.id)
                    + COMMUNITY_ID_BASE,
        decreases devices.len() - j,
    {
        match parse_u64(&devices[j].id) {
            None => {
                proof {
                    assert(!resolvable(devices@[j as int]@.id));
                }
                return Err(Error::InvalidID);
            },
            Some(n) => {
                if n > u64::MAX - COMMUNITY_ID_BASE {
                    proof {
                        assert(!resolvable(devices@[j as int]@.id));
                    }
                    return Err(Error::InvalidID);
                }
                ids.push(n + COMMUNITY_ID_BASE);
            },
        }
        j = j + 1;
    }
    Ok(ids)
}

/// The summaries whose community id is `id`, in their given order.
pub open spec fn summaries_for(id: u64, ss: Seq<Summary>) -> Seq<Summary>
    decreases ss.len(),
{
    if ss.len() == 0 {
        Seq::empty()
    } else {
        let rest = summaries_for(id, ss.drop_last());
        if ss.last().steamid == id {
            rest.push(ss.last())
        } else {
            rest
        }
    }
}

/// For each id in order, the summaries that carry it, in their given
/// order.
pub open spec fn matched_summaries(ids: Seq<u64>, ss: Seq<Summary>) -> Seq<Summary>
    decreases ids.len(),
{
    if ids.len() == 0 {
        Seq::empty()
    } else {
        matched_summaries(ids.drop_last(), ss) + summaries_for(ids.last(), ss)
    }
}

/// The users display exactly the summaries, one for one, in order.
pub open spec fn reflects(us: Seq<User>, ss: Seq<Summary>) -> bool {
    us.len() == ss.len() && forall|i: int|
        0 <= i < us.len() ==> #[trigger] us[i].personaname@ == ss[i].personaname@ && us[i].uri@
            == ss[i].avatarfull@
}

/// `reflects` survives appending a matching pair.
proof fn lemma_reflects_push(us: Seq<User>, ss: Seq<Summary>, u: User, sm: Summary)
    requires
        reflects(us, ss),
        u.personaname@ == sm.personaname@,
        u.uri@ == sm.avatarfull@,
    ensures
        reflects(us.push(u), ss.push(sm)),
{
    assert forall|i: int| 0 <= i < us.push(u).len() implies #[trigger] us.push(u)[i].personaname@
        == ss.push(sm)[i].personaname@ && us.push(u)[i].uri@ == ss.push(sm)[i].avatarfull@ by {
        if i < us.len() {
            assert(us.push(u)[i] == us[i]);
            assert(ss.push(sm)[i] == ss[i]);
        } else {
            assert(us.push(u)[i] == u);
            assert(ss.push(sm)[i] == sm);
        }
    };
}

/// One display user per summary whose community id occurs in `ids`, grouped
/// by the ids' order: for each id in order, the matching summaries in the
/// order the remote lookup returned them.
pub fn match_users(ids: &Vec<u64>, summaries: &Vec<Summary>) -> (r: Vec<User>)
    ensures
        reflects(r@, matched_summaries(ids@, summaries@)),
{
    let mut out: Vec<User> = Vec::new();
    let mut j: usize = 0;
    proof {
        assert(ids@.subrange(0, 0) =~= Seq::<u64>::empty());
        assert(matched_summaries(ids@.subrange(0, 0), summaries@) == Seq::<Summary>::empty());
    }
    while j < ids.len()
        invariant
            j <= ids.len(),
            reflects(out@, matched_summaries(ids@.subrange(0, j as int), summaries@)),
        decreases ids.len() - j,
    {
        let id = ids[j];
        let ghost base = matched_summaries(ids@.subrange(0, j as int), summaries@);
        let mut k: usize = 0;
        proof {
            assert(summaries@.subrange(0, 0) =~= Seq::<Summary>::empty());
            assert(summaries_for(id, summaries@.subrange(0, 0)) == Seq::<Summary>::empty());
            assert(base + summaries_for(id, summaries@.subrange(0, 0)) =~= base);
        }
        while k < summaries.len()
            invariant
                k <= summaries.len(),
                j < ids.len(),
                id == ids@[j as int],
                base == matched_summaries(ids@.subrange(0, j as int), summaries@),
                reflects(out@, base + summaries_for(id, summaries@.subrange(0, k as int))),
            decreases summaries.len() - k,
        {
            let ghost pre = summaries@.subrange(0, k as int);
            let ghost cur = summaries@[k as int];
            proof {
                assert(summaries@.subrange(0, k + 1 as int).drop_last() =~= pre);
                assert(summaries@.subrange(0, k + 1 as int).last() == cur);
            }
            if summaries[k].steamid == id {
                let u = User {
                    personaname: summaries[k].personaname.clone(),
                    uri: summaries[k].avatarfull.clone(),
                };
                proof {
                    lemma_reflects_push(out@, base + summaries_for(id, pre), u, cur);
                    assert((base + summaries_for(id, pre)).push(cur) =~= base + summaries_for(
                        id,
                        summaries@.subrange(0, k + 1 as int),
                    ));
                }
                out.push(u);
            } else {
                proof {
                    assert(summaries_for(id, summaries@.subrange(0, k + 1 as int))
                        == summaries_for(id, pre));
                }
            }
            k = k + 1;
        }
        proof {
            assert(summaries@.subrange(0, summaries@.len() as int) =~= summaries@);
            assert(ids@.subrange(0, j + 1 as int).drop_last() =~= ids@.subrange(0, j as int));
            assert(ids@.subrange(0, j + 1 as int).last() == ids@[j as int]);
            assert(matched_summaries(ids@.subrange(0, j + 1 as int), summaries@) == base
                + summaries_for(id, summaries@));
        }
        j = j + 1;
    }
    proof {
        assert(ids@.subrange(0, ids@.len() as int) =~= ids@);
    }
    out
}

} // verus!
