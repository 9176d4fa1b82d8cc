//! Row numbers for the search index.
//!
//! A row number packs the milliseconds since 1970 into its high 48 bits and
//! a counter that wraps into its low 16 bits. Row numbers made in later
//! milliseconds are larger; within one millisecond they grow until the
//! counter wraps.

use vstd::prelude::*;
use std::time::{Duration, SystemTime, SystemTimeError, UNIX_EPOCH};

verus! {

/// `std::time::SystemTime`: a reading of the system clock. Nothing is
/// known of what it holds.
#[verifier::external_type_specification]
#[verifier::external_body]
pub struct ExSystemTime(SystemTime);

/// `std::time::SystemTimeError`: what `SystemTime::duration_since` fails
/// with. Nothing is known of what it holds.
#[verifier::external_type_specification]
#[verifier::external_body]
pub struct ExSystemTimeError(SystemTimeError);

/// `SystemTime::now`: the reading of the system clock. Nothing is claimed
/// of it.
#[verifier::external_body]
fn clock_now() -> (t: SystemTime) {
    SystemTime::now()
}

/// `SystemTime::duration_since` with the epoch: the time from the epoch to
/// `t`, or an error where `t` lies before the epoch. Nothing is claimed of
/// either.
#[verifier::external_body]
fn since_epoch(t: &SystemTime) -> (r: Result<Duration, SystemTimeError>) {
    t.duration_since(UNIX_EPOCH)
}

/// `Duration::as_millis`: the whole milliseconds in `d`. Nothing is claimed
/// of their number.
#[verifier::external_body]
fn whole_millis(d: &Duration) -> (ms: u128) {
    d.as_millis()
}

/// The milliseconds since 1970 that a reading of the clock counts as: those
/// that have passed since 1970 where the clock stands there or later, and 0
/// where it stands before.
pub open spec fn reading_millis(elapsed: Option<u128>) -> u128 {
    match elapsed {
        Some(millis) => millis,
        None => 0,
    }
}

/// The milliseconds since 1970 that a reading of the clock counts as, from
/// the milliseconds that have passed since 1970, or `None` where the clock
/// stands before 1970.
pub fn millis_of_reading(elapsed: Option<u128>) -> (millis: u128)
    ensures
        millis == reading_millis(elapsed),
{
    match elapsed {
        Some(millis) => millis,
        None => 0,
    }
}

/// The milliseconds since 1970 on the system clock, as
/// [`millis_of_reading`] counts them. The clock decides what they are.
fn unix_millis() -> u128 {
    let now = clock_now();
    let elapsed = match since_epoch(&now) {
        Ok(d) => Some(whole_millis(&d)),
        Err(_) => None,
    };
    millis_of_reading(elapsed)
}

/// The counter that a generator made at millisecond `millis` starts from:
/// the low 16 bits of `millis`.
pub open spec fn seed(millis: u128) -> u16 {
    (millis % 0x1_0000) as u16
}

/// The row number for millisecond `millis` and counter `counter`: the low
/// 48 bits of `millis` above the 16 bits of `counter`, read as a signed
/// number.
pub open spec fn pack(millis: u128, counter: u16) -> i64 {
    let bits = (millis % 0x1_0000_0000_0000) * 0x1_0000 + counter;
    if bits >= 0x8000_0000_0000_0000 {
        (bits - 0x1_0000_0000_0000_0000) as i64
    } else {
        bits as i64
    }
}

/// The counter after `counter`: one more, and 0 after the largest.
pub open spec fn next_counter(counter: u16) -> u16 {
    if counter == u16::MAX {
        0
    } else {
        (counter + 1) as u16
    }
}

/// The counter `n` row numbers after `counter`.
pub open spec fn advance(counter: u16, n: nat) -> u16
    decreases n,
{
    if n == 0 {
        counter
    } else {
        next_counter(advance(counter, (n - 1) as nat))
    }
}

/// `id` is a row number made with counter `counter`, in whatever
/// millisecond.
pub open spec fn made_with(id: i64, counter: u16) -> bool {
    exists|millis: u128| id == pack(millis, counter)
}

/// Makes the row numbers of the search index.
#[derive(Debug, Clone)]
pub struct IdGenerator {
    counter: u16,
}

impl View for IdGenerator {
    type V = u16;

    /// The counter that the next row number takes.
    closed spec fn view(&self) -> u16 {
        self.counter
    }
}

impl IdGenerator {
    /// A generator whose counter starts from the low bits of the system
    /// clock's milliseconds.
    pub fn new() -> (r: IdGenerator) {
        IdGenerator::seeded(unix_millis())
    }

    /// A generator made at millisecond `millis`.
    pub fn seeded(millis: u128) -> (r: IdGenerator)
        ensures
            r@ == seed(millis),
    {
        IdGenerator { counter: (millis % 0x1_0000) as u16 }
    }

    /// The next row number, for the millisecond that the system clock
    /// shows. Whatever the clock shows, the counter moves on by one.
    pub fn generate(&mut self) -> (id: i64)
        ensures
            final(self)@ == next_counter(old(self)@),
            made_with(id, old(self)@),
    {
        let millis: u128 = unix_millis();
        self.generate_at(millis)
    }

    /// The next row number for millisecond `millis`.
    pub fn generate_at(&mut self, millis: u128) -> (id: i64)
        ensures
            id == pack(millis, old(self)@),
            final(self)@ == next_counter(old(self)@),
    {
        let low: u64 = (millis % 0x1_0000_0000_0000) as u64;
        let bits: u64 = low * 0x1_0000 + self.counter as u64;
        self.counter = if self.counter == u16::MAX {
            0
        } else {
            self.counter + 1
        };
        if bits >= 0x8000_0000_0000_0000 {
            let back: u64 = bits - 0x8000_0000_0000_0000;
            (back as i64) - 0x4000_0000_0000_0000 - 0x4000_0000_0000_0000
        } else {
            bits as i64
        }
    }
}

/// A row number made in a later millisecond is larger, whatever the
/// counters, as long as the milliseconds fit 47 bits.
pub proof fn law_later_is_larger(m1: u128, c1: u16, m2: u128, c2: u16)
    requires
        m1 < m2 < 0x8000_0000_0000,
    ensures
        0 <= pack(m1, c1) < pack(m2, c2),
{
}

/// Within one millisecond the row numbers grow with the counter.
pub proof fn law_same_millisecond(m: u128, c1: u16, c2: u16)
    requires
        c1 < c2,
    ensures
        pack(m, c1) < pack(m, c2),
{
}

/// Row numbers of one millisecond with different counters differ.
pub proof fn law_row_numbers_differ(m1: u128, c1: u16, m2: u128, c2: u16)
    requires
        m1 < 0x1_0000_0000_0000,
        m2 < 0x1_0000_0000_0000,
        pack(m1, c1) == pack(m2, c2),
    ensures
        m1 == m2 && c1 == c2,
{
}

/// The counter after `n` row numbers is `n` further on, around the
/// 65536 counters.
pub proof fn lemma_advance_value(counter: u16, n: nat)
    ensures
        advance(counter, n) as int == (counter + n) % 0x1_0000,
    decreases n,
{
    if n > 0 {
        lemma_advance_value(counter, (n - 1) as nat);
    }
}

/// Moving on by `a` and then by `b` is moving on by `a + b`.
pub proof fn lemma_advance_sum(counter: u16, a: nat, b: nat)
    ensures
        advance(advance(counter, a), b) == advance(counter, a + b),
{
    lemma_advance_value(counter, a);
    lemma_advance_value(advance(counter, a), b);
    lemma_advance_value(counter, a + b);
}

/// A row number shows the counter that it was made with.
pub proof fn lemma_counter_of(id: i64, c1: u16, c2: u16)
    requires
        made_with(id, c1),
        made_with(id, c2),
    ensures
        c1 == c2,
{
    let m1 = choose|millis: u128| id == pack(millis, c1);
    let m2 = choose|millis: u128| id == pack(millis, c2);
    let h1 = (m1 % 0x1_0000_0000_0000) as int;
    let h2 = (m2 % 0x1_0000_0000_0000) as int;
    assert((h1 * 0x1_0000 + c1) % 0x1_0000 == c1 as int);
    assert((h2 * 0x1_0000 + c2) % 0x1_0000 == c2 as int);
    assert((h1 * 0x1_0000 + c1 - 0x1_0000_0000_0000_0000) % 0x1_0000 == c1 as int);
    assert((h2 * 0x1_0000 + c2 - 0x1_0000_0000_0000_0000) % 0x1_0000 == c2 as int);
}

/// Fewer than 65536 row numbers made one after the other all differ,
/// whatever the clock showed.
pub proof fn law_successive_rows_differ(counter: u16, a: nat, b: nat, first: i64, second: i64)
    requires
        a < b < 0x1_0000,
        made_with(first, advance(counter, a)),
        made_with(second, advance(counter, b)),
    ensures
        first != second,
{
    lemma_advance_value(counter, a);
    lemma_advance_value(counter, b);
    if first == second {
        lemma_counter_of(first, advance(counter, a), advance(counter, b));
    }
}

} // verus!
