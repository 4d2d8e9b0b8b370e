//! The clock, and versions made from it.

use crate::cmd::Moment;
use crate::codec;
use crate::encoding;
use std::time::{Duration, SystemTime, UNIX_EPOCH};
use vstd::prelude::*;

verus! {

/// A reading of the system clock.
#[verifier::external_type_specification]
#[verifier::external_body]
pub struct ExSystemTime(std::time::SystemTime);

/// Reads the clock with `SystemTime::now`. Nothing is stated of the reading.
#[verifier::external_body]
fn read_clock() -> (t: SystemTime) {
    SystemTime::now()
}

/// The time since 1970 by `SystemTime::duration_since`, or none at all for a
/// reading before that. Nothing is stated of it.
#[verifier::external_body]
fn since_epoch(t: SystemTime) -> (d: Duration) {
    t.duration_since(UNIX_EPOCH).unwrap_or_default()
}

/// A duration in milliseconds by `Duration::as_millis`. Nothing is stated of
/// their number.
#[verifier::external_body]
fn millis(d: &Duration) -> (ms: u128) {
    d.as_millis()
}

/// A random number by `rand::random`. Nothing is stated of it.
#[verifier::external_body]
fn random_u16() -> (n: u16) {
    rand::random::<u16>()
}

/// A count of milliseconds in 64 bits; the higher bits are dropped.
pub fn in_64_bits(ms: u128) -> (r: u64)
    ensures
        r == ms % 0x1_0000_0000_0000_0000,
{
    (ms % 0x1_0000_0000_0000_0000) as u64
}

/// The version that follows the last one at a clock reading: the one that is
/// composed of the reading and a random number where it is greater, else the
/// next number. There is none behind the greatest number.
pub open spec fn next_version(last: u64, now_ms: u64, random: u16) -> Option<u64> {
    let fresh = encoding::version_of(now_ms, random);
    if fresh > last {
        Some(fresh as u64)
    } else if last < u64::MAX {
        Some((last + 1) as u64)
    } else {
        None
    }
}

/// The versions that were handed out, by the last one.
#[derive(Debug)]
pub struct Versions {
    last: u64,
}

impl Versions {
    /// The last version that was handed out.
    pub closed spec fn spec_last(&self) -> u64 {
        self.last
    }

    /// Before the first version.
    pub fn new() -> (r: Versions)
        ensures
            r.spec_last() == 0,
    {
        Versions { last: 0 }
    }

    /// Behind a version, as if it had been the last one.
    pub fn behind(last: u64) -> (r: Versions)
        ensures
            r.spec_last() == last,
    {
        Versions { last }
    }

    /// The last version that was handed out, or 0.
    pub fn last(&self) -> (v: u64)
        ensures
            v == self.spec_last(),
    {
        self.last
    }

    /// Hands out a version that is greater than all before.
    pub fn next(&mut self, now_ms: u64, random: u16) -> (v: Option<u64>)
        ensures
            v == next_version(old(self).spec_last(), now_ms, random),
            v is None <==> old(self).spec_last() == u64::MAX,
            v is Some ==> v->0 > old(self).spec_last() && final(self).spec_last() == v->0,
            v is None ==> final(self).spec_last() == old(self).spec_last(),
    {
        let fresh: u64 = encoding::compose_version(now_ms, random);
        if fresh > self.last {
            self.last = fresh;
        } else if self.last < u64::MAX {
            self.last = self.last + 1;
        } else {
            return None;
        }
        Some(self.last)
    }
}

/// A new version, made from the clock and a random number: greater than all
/// that were handed out before.
pub fn generate_version(versions: &mut Versions) -> (v: Option<u64>)
    ensures
        exists|ms: u64, n: u16|
            v == #[trigger] next_version(old(versions).spec_last(), ms, n),
        v is None <==> old(versions).spec_last() == u64::MAX,
        v is Some ==> v->0 > old(versions).spec_last() && final(versions).spec_last() == v->0,
        v is None ==> final(versions).spec_last() == old(versions).spec_last(),
{
    let now = read_clock();
    let ms: u64 = in_64_bits(millis(&since_epoch(now)));
    versions.next(ms, random_u16())
}

/// What is handed out at a moment after the last version: its version follows
/// that one, by the moment's own clock.
pub open spec fn moment_after(last: u64, at: Moment) -> bool {
    exists|n: u16|
        Some(at.version) == #[trigger] next_version(
            last,
            codec::to_bits(at.now_ms as int) as u64,
            n,
        )
}

/// This moment, with a version that is greater than all before.
pub fn this_moment(versions: &mut Versions) -> (at: Option<Moment>)
    ensures
        at is None <==> old(versions).spec_last() == u64::MAX,
        at is Some ==> {
            &&& moment_after(old(versions).spec_last(), at->0)
            &&& (at->0).version > old(versions).spec_last()
            &&& final(versions).spec_last() == (at->0).version
        },
        at is None ==> final(versions).spec_last() == old(versions).spec_last(),
{
    let now = read_clock();
    let ms: u64 = in_64_bits(millis(&since_epoch(now)));
    let n: u16 = random_u16();
    match versions.next(ms, n) {
        None => None,
        Some(version) => {
            let at = Moment { now_ms: codec::signed_of(ms), version };
            proof {
                assert(Some(at.version) == next_version(
                    old(versions).spec_last(),
                    codec::to_bits(at.now_ms as int) as u64,
                    n,
                ));
            }
            Some(at)
        },
    }
}

/// The last version after the first `n` of some clock readings and random
/// numbers, one version for each.
pub open spec fn last_after(last: u64, readings: Seq<(u64, u16)>, n: nat) -> u64
    decreases n,
{
    if n == 0 {
        last
    } else {
        let before = last_after(last, readings, (n - 1) as nat);
        match next_version(before, readings[n - 1].0, readings[n - 1].1) {
            Some(v) => v,
            None => before,
        }
    }
}

/// The version that is handed out at one of the readings.
pub open spec fn handed_out(last: u64, readings: Seq<(u64, u16)>, i: int) -> Option<u64> {
    next_version(last_after(last, readings, i as nat), readings[i].0, readings[i].1)
}

/// Versions ascend and no two of them are the same, whatever the clock and the
/// random numbers do.
pub proof fn law_versions_ascend(last: u64, readings: Seq<(u64, u16)>, i: int, j: int)
    requires
        0 <= i < j < readings.len(),
        handed_out(last, readings, i) is Some,
        handed_out(last, readings, j) is Some,
    ensures
        last < handed_out(last, readings, i)->0 < handed_out(last, readings, j)->0,
{
    lemma_last_grows(last, readings, 0, i as nat);
    lemma_last_grows(last, readings, (i + 1) as nat, j as nat);
}

proof fn lemma_last_grows(last: u64, readings: Seq<(u64, u16)>, i: nat, j: nat)
    requires
        i <= j,
    ensures
        last_after(last, readings, i) <= last_after(last, readings, j),
    decreases j,
{
    if i < j {
        lemma_last_grows(last, readings, i, (j - 1) as nat);
    }
}

/// The upper 48 bits of a version are the milliseconds of its clock, as long
/// as the clock did not go back and the last version left a number free in
/// that millisecond.
pub proof fn law_versions_tell_the_time(last: u64, now_ms: u64, random: u16)
    requires
        now_ms < 0x1_0000_0000_0000,
        last / 0x1_0000 < now_ms || (last / 0x1_0000 == now_ms && last % 0x1_0000 < 0xFFFF),
    ensures
        next_version(last, now_ms, random) is Some,
        next_version(last, now_ms, random)->0 / 0x1_0000 == now_ms,
{
}

} // verus!
