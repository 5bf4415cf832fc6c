//! Type-aware random inputs for stress runs: for each declared input field,
//! a value of its type drawn from the linear congruential generator of
//! [`crate::exercise`]. A float is drawn as one of its edge cases or as a
//! point of the grid -1000.00..=1000.00 in steps of 0.01, which the caller
//! turns into a number.
use vstd::prelude::*;
use crate::exercise::{lcg_step, lcg_pow, lcg_int};
use crate::value::str_eq;
use crate::text::push_char;

verus! {

/// One drawn value.
#[derive(Debug, Clone)]
pub enum Draw {
    Bool(bool),
    Int(i64),
    Str(String),
    /// Float NaN.
    Nan,
    /// Float positive infinity.
    PosInf,
    /// Float negative infinity.
    NegInf,
    /// Float zero.
    Zero,
    /// The float `k / 100 - 1000`, for `k` in `0..=200000`.
    Grid(u64),
}

/// Mathematical meaning of a [`Draw`].
pub enum DrawModel {
    Bool(bool),
    Int(int),
    Str(Seq<char>),
    Nan,
    PosInf,
    NegInf,
    Zero,
    Grid(int),
}

impl Draw {
    pub open spec fn model(&self) -> DrawModel {
        match self {
            Draw::Bool(b) => DrawModel::Bool(*b),
            Draw::Int(n) => DrawModel::Int(*n as int),
            Draw::Str(s) => DrawModel::Str(s@),
            Draw::Nan => DrawModel::Nan,
            Draw::PosInf => DrawModel::PosInf,
            Draw::NegInf => DrawModel::NegInf,
            Draw::Zero => DrawModel::Zero,
            Draw::Grid(k) => DrawModel::Grid(*k as int),
        }
    }
}

/// The meanings of a row of draws.
pub open spec fn draws_view(row: Seq<Draw>) -> Seq<DrawModel> {
    row.map_values(|d: Draw| d.model())
}

/// The number a generator state hands out: its top 31 bits.
pub open spec fn lcg_out(s: u64) -> int {
    (s / 0x2_0000_0000u64) as int
}

/// The letter `'a' + x % 26`.
pub open spec fn letter(x: int) -> char {
    (97 + x % 26) as char
}

/// The letters drawn after state `s`: letter `k` from the state `k + 1`
/// steps on.
pub open spec fn letters(s: u64, n: nat) -> Seq<char> {
    Seq::new(n, |k: int| letter(lcg_out(lcg_pow(s, (k + 1) as nat))))
}

/// A value of the type named `ty` drawn from state `s`, and the state after.
/// - `"bool"`: the next number is even.
/// - `"float"`: with `edge`, the next number modulo 100 picks NaN (below 3),
///   positive infinity (below 5), negative infinity (below 7) or zero (below
///   10); otherwise (and always without `edge`) the next number modulo
///   200001 is a grid point.
/// - `"string"`: the next number modulo `max_len`, plus one, letters, each
///   `'a'` plus the next number modulo 26.
/// - any other type: an integer in -1000..=1000, as `stress` draws it.
pub open spec fn draw_one(ty: Seq<char>, s: u64, edge: bool, max_len: u64) -> (DrawModel, u64) {
    let s1 = lcg_step(s);
    if ty == "bool"@ {
        (DrawModel::Bool(lcg_out(s1) % 2 == 0), s1)
    } else if ty == "float"@ {
        let choice = lcg_out(s1) % 100;
        if edge && choice < 3 {
            (DrawModel::Nan, s1)
        } else if edge && choice < 5 {
            (DrawModel::PosInf, s1)
        } else if edge && choice < 7 {
            (DrawModel::NegInf, s1)
        } else if edge && choice < 10 {
            (DrawModel::Zero, s1)
        } else if edge {
            let s2 = lcg_step(s1);
            (DrawModel::Grid(lcg_out(s2) % 200001), s2)
        } else {
            (DrawModel::Grid(lcg_out(s1) % 200001), s1)
        }
    } else if ty == "string"@ {
        let len = (lcg_out(s1) % (max_len as int) + 1) as nat;
        (DrawModel::Str(letters(s1, len)), lcg_pow(s1, len))
    } else {
        (DrawModel::Int(lcg_int(s1)), s1)
    }
}

/// The values drawn from state `s` for the first `n` of `types`, in order,
/// and the state after them.
pub open spec fn draw_row(types: Seq<Seq<char>>, s: u64, edge: bool, max_len: u64, n: nat) -> (Seq<DrawModel>, u64)
    decreases n,
{
    if n == 0 {
        (Seq::empty(), s)
    } else {
        let prev = draw_row(types, s, edge, max_len, (n - 1) as nat);
        let one = draw_one(types[n - 1], prev.1, edge, max_len);
        (prev.0.push(one.0), one.1)
    }
}

/// The generator state before row `k`: each row draws one value per type,
/// the state carried on from the row before.
pub open spec fn row_state(types: Seq<Seq<char>>, seed: u64, edge: bool, max_len: u64, k: nat) -> u64
    decreases k,
{
    if k == 0 {
        seed
    } else {
        draw_row(types, row_state(types, seed, edge, max_len, (k - 1) as nat), edge, max_len, types.len()).1
    }
}

/// Row `k` of the draws from `seed`.
pub open spec fn typed_draw_spec(types: Seq<Seq<char>>, seed: u64, edge: bool, max_len: u64, k: nat) -> Seq<DrawModel> {
    draw_row(types, row_state(types, seed, edge, max_len, k), edge, max_len, types.len()).0
}

fn next_number(state: &mut u64) -> (v: u64)
    ensures
        *final(state) == lcg_step(*old(state)),
        v == lcg_out(*final(state)),
{
    let s = state.wrapping_mul(6364136223846793005u64).wrapping_add(1442695040888963407u64);
    *state = s;
    assert((s >> 33u64) == s / 0x2_0000_0000u64) by (bit_vector);
    s >> 33u64
}

fn draw_letters(state: &mut u64, len: u64) -> (r: String)
    ensures
        r@ == letters(*old(state), len as nat),
        *final(state) == lcg_pow(*old(state), len as nat),
{
    let ghost s0 = *state;
    let mut text = String::new();
    let mut k: u64 = 0;
    while k < len
        invariant
            k <= len,
            *state == lcg_pow(s0, k as nat),
            text@ =~= letters(s0, k as nat),
        decreases len - k,
    {
        let v = next_number(state);
        let r: u64 = v % 26;
        let c: char = (97u8 + r as u8) as char;
        push_char(&mut text, c);
        k = k + 1;
    }
    text
}

/// Draw one value of the type named `ty`, advancing the generator.
fn draw_value(ty: &str, state: &mut u64, edge: bool, max_len: u64) -> (d: Draw)
    requires
        max_len > 0,
    ensures
        (d.model(), *final(state)) == draw_one(ty@, *old(state), edge, max_len),
{
    let v = next_number(state);
    if str_eq(ty, "bool") {
        Draw::Bool(v % 2 == 0)
    } else if str_eq(ty, "float") {
        if edge {
            let choice = v % 100;
            if choice < 3 {
                Draw::Nan
            } else if choice < 5 {
                Draw::PosInf
            } else if choice < 7 {
                Draw::NegInf
            } else if choice < 10 {
                Draw::Zero
            } else {
                let w = next_number(state);
                Draw::Grid(w % 200001)
            }
        } else {
            Draw::Grid(v % 200001)
        }
    } else if str_eq(ty, "string") {
        assert(v < 0x8000_0000);
        let len = v % max_len + 1;
        let text = draw_letters(state, len);
        Draw::Str(text)
    } else {
        assert(v < 0x8000_0000);
        let t = v as i64;
        Draw::Int(t % 2001 - 1000)
    }
}

/// `iterations` rows of typed values, one value per entry of `field_types`
/// in order, all drawn from one generator seeded with `seed`. With
/// `edge_floats` a float is one of NaN, the infinities or zero a tenth of
/// the time; a string has 1 to `max_len` letters.
pub fn typed_draws(field_types: &Vec<String>, iterations: usize, seed: u64, edge_floats: bool, max_len: u64) -> (r: Vec<Vec<Draw>>)
    requires
        max_len > 0,
    ensures
        r@.len() == iterations,
        forall|i: int|
            0 <= i < iterations ==> draws_view(#[trigger] r@[i]@) == typed_draw_spec(
                crate::engine::names_view(field_types@),
                seed,
                edge_floats,
                max_len,
                i as nat,
            ),
{
    let ghost types = crate::engine::names_view(field_types@);
    let mut state = seed;
    let mut rows: Vec<Vec<Draw>> = Vec::new();
    let mut k: usize = 0;
    while k < iterations
        invariant
            max_len > 0,
            types == crate::engine::names_view(field_types@),
            k <= iterations,
            rows@.len() == k,
            state == row_state(types, seed, edge_floats, max_len, k as nat),
            forall|i: int|
                0 <= i < k ==> draws_view(#[trigger] rows@[i]@) == typed_draw_spec(types, seed, edge_floats, max_len, i as nat),
        decreases iterations - k,
    {
        let ghost s_row = state;
        let mut row: Vec<Draw> = Vec::new();
        let mut j: usize = 0;
        while j < field_types.len()
            invariant
                max_len > 0,
                types == crate::engine::names_view(field_types@),
                j <= field_types@.len(),
                (draws_view(row@), state) == draw_row(types, s_row, edge_floats, max_len, j as nat),
            decreases field_types@.len() - j,
        {
            let d = draw_value(field_types[j].as_str(), &mut state, edge_floats, max_len);
            let ghost before = row@;
            row.push(d);
            proof {
                assert(draws_view(row@) =~= draws_view(before).push(d.model()));
            }
            j = j + 1;
        }
        proof {
            assert(types.len() == field_types@.len());
        }
        let ghost prev = rows@;
        rows.push(row);
        proof {
            assert forall|i: int| 0 <= i < k + 1 implies draws_view(#[trigger] rows@[i]@) == typed_draw_spec(
                types,
                seed,
                edge_floats,
                max_len,
                i as nat,
            ) by {
                if i < k {
                    assert(rows@[i] == prev[i]);
                }
            }
        }
        k = k + 1;
    }
    rows
}

} // verus!
