//! Gain steps of the MPEG Layer III format (1.5 dB each) and gains in
//! hundredths of a dB.

use vstd::prelude::*;
use vstd::arithmetic::div_mod::{lemma_fundamental_div_mod, lemma_fundamental_div_mod_converse};

verus! {

/// One gain step, in hundredths of a dB.
pub const STEP_CENTI_DB: i64 = 150;

/// `c / 150` rounded to the nearest integer, halves away from zero.
pub open spec fn steps_of(c: int) -> int {
    if c >= 0 {
        (c + 75) / 150
    } else {
        -((-c + 75) / 150)
    }
}

fn nonnegative_steps(c: i64) -> (r: i64)
    requires
        c >= 0,
    ensures
        r == (c + 75) / 150,
{
    let q = c / 150;
    let rem = c % 150;
    proof {
        lemma_fundamental_div_mod(c as int, 150);
        if rem >= 75 {
            lemma_fundamental_div_mod_converse(c + 75, 150, q + 1, rem - 75);
        } else {
            lemma_fundamental_div_mod_converse(c + 75, 150, q as int, rem + 75);
        }
    }
    if rem >= 75 {
        q + 1
    } else {
        q
    }
}

/// The nearest whole number of steps to a gain of `centi_db` hundredths of
/// a dB, halves away from zero.
pub fn centi_db_to_steps(centi_db: i64) -> (r: i64)
    requires
        centi_db > i64::MIN,
    ensures
        r == steps_of(centi_db as int),
{
    if centi_db >= 0 {
        nonnegative_steps(centi_db)
    } else {
        -nonnegative_steps(-centi_db)
    }
}

/// A number of steps in hundredths of a dB.
pub fn steps_to_centi_db(steps: i32) -> (r: i64)
    ensures
        r == steps * 150,
{
    steps as i64 * STEP_CENTI_DB
}

/// Converting steps to hundredths of a dB and back gives the same steps.
pub proof fn lemma_steps_round_trip(n: int)
    ensures
        steps_of(n * 150) == n,
{
    if n >= 0 {
        lemma_fundamental_div_mod_converse(n * 150 + 75, 150, n, 75);
    } else {
        lemma_fundamental_div_mod_converse(-(n * 150) + 75, 150, -n, 75);
    }
}

} // verus!
