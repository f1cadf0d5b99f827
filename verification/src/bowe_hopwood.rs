use vstd::prelude::*;

use ark_crypto_primitives::crh::bowe_hopwood::CHUNK_SIZE;

verus! {

/// `ark_crypto_primitives::crh::bowe_hopwood::CHUNK_SIZE`: the Bowe-Hopwood hash reads
/// its input in chunks of this many bits; the crate defines it as the literal 3.
#[verifier::external_body]
fn chunk_size() -> (n: usize)
    ensures
        n == 3,
{
    CHUNK_SIZE
}

/// Window parameters of the Bowe-Hopwood hash used by the circuit.
#[derive(Clone, PartialEq, Eq, Hash)]
pub struct Window;

impl Window {
    /// Number of 3-bit chunks hashed per window.
    pub const WINDOW_SIZE: usize = 63;
    /// Number of windows.
    pub const NUM_WINDOWS: usize = 2;

    /// Longest input, in bits, that the hash takes.
    pub fn max_input_bits() -> (n: usize)
        ensures
            n == Self::WINDOW_SIZE * Self::NUM_WINDOWS * 3,
    {
        Self::WINDOW_SIZE * Self::NUM_WINDOWS * chunk_size()
    }

    /// Whether an input of `len` bytes fits in the windows; the hash refuses longer ones.
    pub fn accepts_input_len(len: usize) -> (ok: bool)
        ensures
            ok == (len * 8 <= Self::WINDOW_SIZE * Self::NUM_WINDOWS * 3),
    {
        len <= Self::max_input_bits() / 8
    }
}

} // verus!

verus! {

/// `new_witness` never fails on the byte `b`: whatever it may return there is a variable.
pub open spec fn never_fails<V, E, A: Fn(u8) -> Result<V, E>>(new_witness: A, b: u8) -> bool {
    &&& new_witness.requires((b,))
    &&& forall|r: Result<V, E>| #[trigger] new_witness.ensures((b,), r) ==> r is Ok
}

/// `vars` holds, byte for byte and in order, a variable that `new_witness` can return for
/// each byte of `input`.
pub open spec fn allocated_for<V, E, A: Fn(u8) -> Result<V, E>>(
    new_witness: A,
    input: Seq<u8>,
    vars: Seq<V>,
) -> bool {
    &&& vars.len() == input.len()
    &&& forall|i: int| 0 <= i < input.len() ==> new_witness.ensures((input[i],), Ok(#[trigger] vars[i]))
}

/// `new_witness` gives each byte one result only.
pub open spec fn deterministic<V, E, A: Fn(u8) -> Result<V, E>>(new_witness: A) -> bool {
    forall|b: u8, r1: Result<V, E>, r2: Result<V, E>|
        #![trigger new_witness.ensures((b,), r1), new_witness.ensures((b,), r2)]
        new_witness.ensures((b,), r1) && new_witness.ensures((b,), r2) ==> r1 == r2
}

/// Allocates one witness per input byte, in order, with `new_witness`: the allocation of a
/// byte in a constraint system (for an arkworks circuit, `UInt8::new_witness` on it). The
/// allocation must not fail on the bytes of `input` (with arkworks, the system must not be
/// `None` unless `input` is empty).
pub fn generate_u8_input<V, E, A>(input: Vec<u8>, new_witness: A) -> (vars: Vec<V>) where
    A: Fn(u8) -> Result<V, E>,
    requires
        forall|i: int| 0 <= i < input.len() ==> never_fails::<V, E, A>(new_witness, #[trigger] input[i]),
    ensures
        allocated_for::<V, E, A>(new_witness, input@, vars@),
{
    let mut input_bytes: Vec<V> = Vec::new();
    let mut idx: usize = 0;
    while idx < input.len()
        invariant
            idx <= input.len(),
            forall|i: int| 0 <= i < input.len() ==> never_fails::<V, E, A>(new_witness, #[trigger] input[i]),
            allocated_for::<V, E, A>(new_witness, input@.take(idx as int), input_bytes@),
        decreases input.len() - idx,
    {
        assert(never_fails::<V, E, A>(new_witness, input[idx as int]));
        let result = new_witness(input[idx]);
        match result {
            Ok(var) => {
                input_bytes.push(var);
            },
            Err(_) => {
                assert(new_witness.ensures((input[idx as int],), result));
                assert(false);
            },
        }
        idx = idx + 1;
        assert(input@.take(idx as int) =~= input@.take(idx - 1).push(input[idx - 1]));
    }
    assert(input@.take(input.len() as int) =~= input@);
    input_bytes
}

/// Allocating the bytes of `x` followed by those of `y` gives the variables of `x`
/// followed by those of `y`, when the allocation gives each byte one result only.
pub proof fn lemma_allocation_concatenates<V, E, A: Fn(u8) -> Result<V, E>>(
    new_witness: A,
    x: Seq<u8>,
    y: Seq<u8>,
    vars_x: Seq<V>,
    vars_y: Seq<V>,
    vars_xy: Seq<V>,
)
    requires
        deterministic::<V, E, A>(new_witness),
        allocated_for::<V, E, A>(new_witness, x, vars_x),
        allocated_for::<V, E, A>(new_witness, y, vars_y),
        allocated_for::<V, E, A>(new_witness, x + y, vars_xy),
    ensures
        vars_xy == vars_x + vars_y,
{
    let xy = x + y;
    assert forall|i: int| 0 <= i < vars_xy.len() implies vars_xy[i] == (vars_x + vars_y)[i] by {
        assert(new_witness.ensures((xy[i],), Ok(vars_xy[i])));
        if i < x.len() {
            assert(xy[i] == x[i]);
            assert(new_witness.ensures((x[i],), Ok(vars_x[i])));
            let r1: Result<V, E> = Ok(vars_xy[i]);
            let r2: Result<V, E> = Ok(vars_x[i]);
            assert(r1 == r2);
        } else {
            let j = i - x.len();
            assert(xy[i] == y[j]);
            assert(new_witness.ensures((y[j],), Ok(vars_y[j])));
            let r1: Result<V, E> = Ok(vars_xy[i]);
            let r2: Result<V, E> = Ok(vars_y[j]);
            assert(r1 == r2);
        }
    }
    assert(vars_xy =~= vars_x + vars_y);
}

/// A run of allocations covers `x ++ y` exactly when its first `x.len()` variables cover
/// `x` and the rest cover `y`; it holds of any allocation, fresh variables on each call
/// included.
pub proof fn lemma_allocated_for_split<V, E, A: Fn(u8) -> Result<V, E>>(
    new_witness: A,
    x: Seq<u8>,
    y: Seq<u8>,
    vars: Seq<V>,
)
    requires
        x.len() <= vars.len(),
    ensures
        allocated_for::<V, E, A>(new_witness, x + y, vars) <==> (allocated_for::<V, E, A>(
            new_witness,
            x,
            vars.take(x.len() as int),
        ) && allocated_for::<V, E, A>(new_witness, y, vars.skip(x.len() as int))),
{
    let xy = x + y;
    let n = x.len() as int;
    let head = vars.take(n);
    let tail = vars.skip(n);
    if allocated_for::<V, E, A>(new_witness, xy, vars) {
        assert forall|i: int| 0 <= i < x.len() implies new_witness.ensures(
            (x[i],),
            Ok(#[trigger] head[i]),
        ) by {
            assert(xy[i] == x[i]);
            assert(new_witness.ensures((xy[i],), Ok(vars[i])));
        }
        assert forall|j: int| 0 <= j < y.len() implies new_witness.ensures(
            (y[j],),
            Ok(#[trigger] tail[j]),
        ) by {
            assert(xy[n + j] == y[j]);
            assert(new_witness.ensures((xy[n + j],), Ok(vars[n + j])));
        }
    }
    if allocated_for::<V, E, A>(new_witness, x, head) && allocated_for::<V, E, A>(
        new_witness,
        y,
        tail,
    ) {
        assert forall|i: int| 0 <= i < xy.len() implies new_witness.ensures(
            (xy[i],),
            Ok(#[trigger] vars[i]),
        ) by {
            if i < n {
                assert(xy[i] == x[i]);
                assert(new_witness.ensures((x[i],), Ok(head[i])));
            } else {
                assert(xy[i] == y[i - n]);
                assert(new_witness.ensures((y[i - n],), Ok(tail[i - n])));
            }
        }
    }
}

} // verus!
