use vstd::prelude::*;

verus! {

/// The circuit proves `hash(0, left, right) == output`; each value that it gives the
/// composer as an input comes from one of these places.
#[derive(Clone, Copy, PartialEq, Eq, Structural, Debug)]
pub enum InputSource {
    /// The left hash input.
    Left,
    /// The right hash input.
    Right,
    /// The zero that starts the sponge state.
    StateZero,
    /// A round key, by index.
    RoundKey(usize),
    /// An MDS matrix entry, by row and column.
    Mds(usize, usize),
}

/// Number of entries of a matrix whose rows have these lengths.
pub open spec fn rows_total(row_lens: Seq<usize>) -> nat
    decreases row_lens.len(),
{
    if row_lens.len() == 0 {
        0
    } else {
        rows_total(row_lens.drop_last()) + row_lens.last() as nat
    }
}

/// The entries of a matrix with these row lengths, row by row.
pub open spec fn mds_sources(row_lens: Seq<usize>) -> Seq<InputSource>
    decreases row_lens.len(),
{
    if row_lens.len() == 0 {
        Seq::empty()
    } else {
        let i = (row_lens.len() - 1) as usize;
        mds_sources(row_lens.drop_last()) + Seq::new(
            row_lens.last() as nat,
            |j: int| InputSource::Mds(i, j as usize),
        )
    }
}

/// The order in which the circuit gives its inputs to the composer: the two hash inputs,
/// the zero of the state, the round keys, then the MDS matrix row by row.
pub open spec fn schedule(num_round_keys: nat, row_lens: Seq<usize>) -> Seq<InputSource> {
    seq![InputSource::Left, InputSource::Right, InputSource::StateZero] + Seq::new(
        num_round_keys,
        |i: int| InputSource::RoundKey(i as usize),
    ) + mds_sources(row_lens)
}

/// Whether `src` names a parameter of a circuit with this many round keys and an MDS
/// matrix with these row lengths.
pub open spec fn valid_source(num_round_keys: nat, row_lens: Seq<usize>, src: InputSource) -> bool {
    match src {
        InputSource::RoundKey(i) => i < num_round_keys,
        InputSource::Mds(i, j) => i < row_lens.len() && j < row_lens[i as int],
        _ => true,
    }
}

/// Where `src` stands in the schedule.
pub open spec fn source_position(num_round_keys: nat, row_lens: Seq<usize>, src: InputSource) -> int {
    match src {
        InputSource::Left => 0,
        InputSource::Right => 1,
        InputSource::StateZero => 2,
        InputSource::RoundKey(i) => 3 + i,
        InputSource::Mds(i, j) => 3 + num_round_keys + rows_total(row_lens.take(i as int)) + j,
    }
}

/// The variables that the composer handed back for the circuit's inputs, laid out as the
/// hash gadget takes them.
pub struct GadgetInputs<V> {
    pub left: V,
    pub right: V,
    pub state_zero: V,
    pub round_keys: Vec<V>,
    pub mds_matrix: Vec<Vec<V>>,
}

/// The variable that `inputs` holds for the parameter `src`.
pub open spec fn slot<V>(inputs: GadgetInputs<V>, src: InputSource) -> V {
    match src {
        InputSource::Left => inputs.left,
        InputSource::Right => inputs.right,
        InputSource::StateZero => inputs.state_zero,
        InputSource::RoundKey(i) => inputs.round_keys@[i as int],
        InputSource::Mds(i, j) => inputs.mds_matrix@[i as int]@[j as int],
    }
}

/// `inputs` has the shape of the circuit's parameters.
pub open spec fn has_shape<V>(inputs: GadgetInputs<V>, num_round_keys: nat, row_lens: Seq<usize>) -> bool {
    &&& inputs.round_keys@.len() == num_round_keys
    &&& inputs.mds_matrix@.len() == row_lens.len()
    &&& forall|i: int|
        0 <= i < row_lens.len() ==> (#[trigger] inputs.mds_matrix@[i])@.len() == row_lens[i]
}

proof fn lemma_rows_total_step(row_lens: Seq<usize>, i: int)
    requires
        0 <= i < row_lens.len(),
    ensures
        rows_total(row_lens.take(i + 1)) == rows_total(row_lens.take(i)) + row_lens[i],
        mds_sources(row_lens.take(i + 1)) == mds_sources(row_lens.take(i)) + Seq::new(
            row_lens[i] as nat,
            |j: int| InputSource::Mds(i as usize, j as usize),
        ),
{
    assert(row_lens.take(i + 1).drop_last() =~= row_lens.take(i));
}

proof fn lemma_rows_total_mono(row_lens: Seq<usize>, a: int, c: int)
    requires
        0 <= a <= c <= row_lens.len(),
    ensures
        rows_total(row_lens.take(a)) <= rows_total(row_lens.take(c)),
    decreases c - a,
{
    if a < c {
        lemma_rows_total_step(row_lens, c - 1);
        lemma_rows_total_mono(row_lens, a, c - 1);
    }
}

proof fn lemma_mds_sources_len(row_lens: Seq<usize>)
    ensures
        mds_sources(row_lens).len() == rows_total(row_lens),
    decreases row_lens.len(),
{
    if row_lens.len() > 0 {
        lemma_mds_sources_len(row_lens.drop_last());
    }
}

/// The entry `(i, j)` stands in `mds_sources` after the entries of the rows above it.
proof fn lemma_mds_sources_index(row_lens: Seq<usize>, i: int, j: int)
    requires
        0 <= i < row_lens.len(),
        0 <= j < row_lens[i],
    ensures
        rows_total(row_lens.take(i)) + j < rows_total(row_lens),
        mds_sources(row_lens)[rows_total(row_lens.take(i)) + j] == InputSource::Mds(
            i as usize,
            j as usize,
        ),
{
    let whole = mds_sources(row_lens);
    let upto = mds_sources(row_lens.take(i + 1));
    let k = rows_total(row_lens.take(i)) + j;
    lemma_rows_total_step(row_lens, i);
    lemma_mds_sources_len(row_lens.take(i));
    lemma_mds_sources_len(row_lens.take(i + 1));
    assert(upto[k] == InputSource::Mds(i as usize, j as usize));
    lemma_mds_sources_prefix(row_lens, i + 1);
    assert(whole[k] == upto[k]);
    assert(rows_total(row_lens.take(i + 1)) <= rows_total(row_lens)) by {
        lemma_rows_total_mono(row_lens, i + 1, row_lens.len() as int);
        assert(row_lens.take(row_lens.len() as int) =~= row_lens);
    }
}

/// The sources of the first `i` rows begin the sources of the whole matrix.
proof fn lemma_mds_sources_prefix(row_lens: Seq<usize>, i: int)
    requires
        0 <= i <= row_lens.len(),
    ensures
        forall|k: int|
            0 <= k < mds_sources(row_lens.take(i)).len() ==> #[trigger] mds_sources(
                row_lens.take(i),
            )[k] == mds_sources(row_lens)[k],
        mds_sources(row_lens.take(i)).len() <= mds_sources(row_lens).len(),
    decreases row_lens.len() - i,
{
    if i == row_lens.len() {
        assert(row_lens.take(i) =~= row_lens);
    } else {
        lemma_rows_total_step(row_lens, i);
        lemma_mds_sources_prefix(row_lens, i + 1);
        let shorter = mds_sources(row_lens.take(i));
        let longer = mds_sources(row_lens.take(i + 1));
        assert forall|k: int| 0 <= k < shorter.len() implies #[trigger] shorter[k] == mds_sources(
            row_lens,
        )[k] by {
            assert(longer[k] == shorter[k]);
        }
    }
}

/// Each position of `mds_sources` names the entry whose row and column are given back.
proof fn lemma_mds_sources_coords(row_lens: Seq<usize>, k: int) -> (ij: (int, int))
    requires
        0 <= k < rows_total(row_lens),
    ensures
        0 <= ij.0 < row_lens.len(),
        0 <= ij.1 < row_lens[ij.0],
        k == rows_total(row_lens.take(ij.0)) + ij.1,
        mds_sources(row_lens)[k] == InputSource::Mds(ij.0 as usize, ij.1 as usize),
    decreases row_lens.len(),
{
    let last = row_lens.len() - 1;
    let prefix = row_lens.drop_last();
    lemma_mds_sources_len(prefix);
    assert(row_lens.take(last) =~= prefix);
    if k < rows_total(prefix) {
        let ij = lemma_mds_sources_coords(prefix, k);
        assert(prefix.take(ij.0) =~= row_lens.take(ij.0));
        ij
    } else {
        (last, k - rows_total(prefix))
    }
}

/// Each parameter of the circuit is given to the composer exactly once: every valid
/// source has one place in the schedule, and every place holds a valid source that is
/// found again at that place.
pub proof fn lemma_schedule_gives_each_parameter_once(num_round_keys: nat, row_lens: Seq<usize>)
    requires
        num_round_keys <= usize::MAX,
        row_lens.len() <= usize::MAX,
    ensures
        schedule(num_round_keys, row_lens).len() == 3 + num_round_keys + rows_total(row_lens),
        forall|src: InputSource|
            valid_source(num_round_keys, row_lens, src) ==> {
                let k = #[trigger] source_position(num_round_keys, row_lens, src);
                &&& 0 <= k < schedule(num_round_keys, row_lens).len()
                &&& schedule(num_round_keys, row_lens)[k] == src
            },
        forall|k: int|
            0 <= k < schedule(num_round_keys, row_lens).len() ==> {
                let src = #[trigger] schedule(num_round_keys, row_lens)[k];
                &&& valid_source(num_round_keys, row_lens, src)
                &&& source_position(num_round_keys, row_lens, src) == k
            },
{
    let s = schedule(num_round_keys, row_lens);
    let base = 3 + num_round_keys;
    lemma_mds_sources_len(row_lens);
    assert forall|src: InputSource| valid_source(num_round_keys, row_lens, src) implies {
        let k = #[trigger] source_position(num_round_keys, row_lens, src);
        &&& 0 <= k < s.len()
        &&& s[k] == src
    } by {
        let head = seq![InputSource::Left, InputSource::Right, InputSource::StateZero];
        let keys = Seq::new(num_round_keys, |i: int| InputSource::RoundKey(i as usize));
        let k = source_position(num_round_keys, row_lens, src);
        match src {
            InputSource::RoundKey(i) => {
                assert(s[k] == keys[i as int]);
            },
            InputSource::Mds(i, j) => {
                lemma_mds_sources_index(row_lens, i as int, j as int);
                assert(s[k] == mds_sources(row_lens)[k - base]);
            },
            _ => {
                assert(s[k] == head[k]);
            },
        }
    }
    assert forall|k: int| 0 <= k < s.len() implies {
        let src = #[trigger] s[k];
        &&& valid_source(num_round_keys, row_lens, src)
        &&& source_position(num_round_keys, row_lens, src) == k
    } by {
        let head = seq![InputSource::Left, InputSource::Right, InputSource::StateZero];
        let keys = Seq::new(num_round_keys, |i: int| InputSource::RoundKey(i as usize));
        if k < 3 {
            assert(s[k] == head[k]);
        } else if k < base {
            assert(s[k] == keys[k - 3]);
        } else {
            assert(s[k] == mds_sources(row_lens)[k - base]);
            let ij = lemma_mds_sources_coords(row_lens, k - base);
        }
    }
}

impl<V: Copy> GadgetInputs<V> {
    /// The state that the hash starts from: the zero, then the left and right inputs.
    pub fn hash_state(&self) -> (state: Vec<V>)
        ensures
            state@ == seq![self.state_zero, self.left, self.right],
    {
        vec![self.state_zero, self.left, self.right]
    }
}

/// Lays out the variables that the composer handed back, in the order of
/// [`input_schedule`], as the hash gadget takes them; `None` where their number is not the
/// schedule's.
pub fn assemble_inputs<V: Copy>(num_round_keys: usize, mds_row_lens: &Vec<usize>, vars: &Vec<V>) -> (r:
    Option<GadgetInputs<V>>)
    ensures
        r is Some <==> vars@.len() == schedule(num_round_keys as nat, mds_row_lens@).len(),
        r is Some ==> has_shape(r->Some_0, num_round_keys as nat, mds_row_lens@),
        r is Some ==> forall|k: int|
            0 <= k < vars@.len() ==> slot(
                r->Some_0,
                #[trigger] schedule(num_round_keys as nat, mds_row_lens@)[k],
            ) == vars@[k],
{
    let ghost lens = mds_row_lens@;
    let num_vars = vars.len();
    let num_rows = mds_row_lens.len();
    proof {
        lemma_schedule_gives_each_parameter_once(num_round_keys as nat, lens);
        assert(lens.take(0) =~= Seq::<usize>::empty());
        assert(lens.take(lens.len() as int) =~= lens);
    }
    let mut total: usize = 0;
    let mut row: usize = 0;
    while row < num_rows
        invariant
            row <= lens.len(),
            lens == mds_row_lens@,
            num_rows == lens.len(),
            total == rows_total(lens.take(row as int)),
            num_vars == vars@.len(),
            rows_total(lens.take(lens.len() as int)) == rows_total(lens),
            schedule(num_round_keys as nat, lens).len() == 3 + num_round_keys + rows_total(lens),
        decreases lens.len() - row,
    {
        proof {
            lemma_rows_total_step(lens, row as int);
            lemma_rows_total_mono(lens, row + 1, lens.len() as int);
        }
        match total.checked_add(mds_row_lens[row]) {
            Some(t) => {
                total = t;
            },
            None => {
                return None;
            },
        }
        row = row + 1;
    }
    let expected = match num_round_keys.checked_add(3) {
        Some(n) => match n.checked_add(total) {
            Some(n) => n,
            None => {
                return None;
            },
        },
        None => {
            return None;
        },
    };
    if vars.len() != expected {
        return None;
    }
    let base = 3 + num_round_keys;
    let left = vars[0];
    let right = vars[1];
    let state_zero = vars[2];
    let mut round_keys: Vec<V> = Vec::new();
    let mut i: usize = 0;
    while i < num_round_keys
        invariant
            i <= num_round_keys,
            vars@.len() == base + rows_total(lens),
            base == 3 + num_round_keys,
            round_keys@.len() == i,
            forall|a: int| 0 <= a < i ==> #[trigger] round_keys@[a] == vars@[3 + a],
        decreases num_round_keys - i,
    {
        round_keys.push(vars[3 + i]);
        i = i + 1;
    }
    let mut mds_matrix: Vec<Vec<V>> = Vec::new();
    let mut pos: usize = base;
    row = 0;
    while row < mds_row_lens.len()
        invariant
            row <= lens.len(),
            lens == mds_row_lens@,
            vars@.len() == base + rows_total(lens),
            num_vars == vars@.len(),
            rows_total(lens.take(lens.len() as int)) == rows_total(lens),
            pos == base + rows_total(lens.take(row as int)),
            mds_matrix@.len() == row,
            forall|a: int| 0 <= a < row ==> (#[trigger] mds_matrix@[a])@.len() == lens[a],
            forall|a: int, b: int|
                0 <= a < row && 0 <= b < lens[a] ==> #[trigger] mds_matrix@[a]@[b] == vars@[base
                    + rows_total(lens.take(a)) + b],
        decreases lens.len() - row,
    {
        proof {
            lemma_rows_total_step(lens, row as int);
            lemma_rows_total_mono(lens, row + 1, lens.len() as int);
        }
        let row_len = mds_row_lens[row];
        let ghost start = pos;
        let mut row_vars: Vec<V> = Vec::new();
        let mut col: usize = 0;
        while col < row_len
            invariant
                col <= row_len,
                pos == start + col,
                start + row_len <= vars@.len(),
                num_vars == vars@.len(),
                row_vars@.len() == col,
                forall|b: int| 0 <= b < col ==> #[trigger] row_vars@[b] == vars@[start + b],
            decreases row_len - col,
        {
            row_vars.push(vars[pos]);
            pos = pos + 1;
            col = col + 1;
        }
        mds_matrix.push(row_vars);
        row = row + 1;
    }
    let inputs = GadgetInputs { left, right, state_zero, round_keys, mds_matrix };
    proof {
        let s = schedule(num_round_keys as nat, lens);
        assert forall|k: int| 0 <= k < vars@.len() implies slot(inputs, #[trigger] s[k])
            == vars@[k] by {
            if let InputSource::Mds(a, b) = s[k] {
                assert(inputs.mds_matrix@[a as int]@[b as int] == vars@[base + rows_total(
                    lens.take(a as int),
                ) + b]);
            }
        }
    }
    Some(inputs)
}

/// The order in which the circuit gives its inputs to the composer: the left and right
/// hash inputs, the zero that starts the state, the round keys, then the MDS matrix row
/// by row.
pub fn input_schedule(num_round_keys: usize, mds_row_lens: &Vec<usize>) -> (s: Vec<InputSource>)
    ensures
        s@ == schedule(num_round_keys as nat, mds_row_lens@),
{
    let ghost lens = mds_row_lens@;
    let mut s: Vec<InputSource> = Vec::new();
    s.push(InputSource::Left);
    s.push(InputSource::Right);
    s.push(InputSource::StateZero);
    let ghost head = s@;
    let mut i: usize = 0;
    while i < num_round_keys
        invariant
            i <= num_round_keys,
            s@ == head + Seq::new(i as nat, |k: int| InputSource::RoundKey(k as usize)),
        decreases num_round_keys - i,
    {
        s.push(InputSource::RoundKey(i));
        i = i + 1;
        assert(s@ =~= head + Seq::new(i as nat, |k: int| InputSource::RoundKey(k as usize)));
    }
    let ghost keys = s@;
    let mut row: usize = 0;
    assert(lens.take(0) =~= Seq::<usize>::empty());
    assert(s@ =~= keys + mds_sources(lens.take(0)));
    while row < mds_row_lens.len()
        invariant
            row <= lens.len(),
            lens == mds_row_lens@,
            s@ == keys + mds_sources(lens.take(row as int)),
        decreases lens.len() - row,
    {
        let row_len = mds_row_lens[row];
        let ghost before = s@;
        let mut col: usize = 0;
        while col < row_len
            invariant
                col <= row_len,
                s@ == before + Seq::new(col as nat, |j: int| InputSource::Mds(row, j as usize)),
            decreases row_len - col,
        {
            s.push(InputSource::Mds(row, col));
            col = col + 1;
            assert(s@ =~= before + Seq::new(col as nat, |j: int| InputSource::Mds(row, j as usize)));
        }
        proof {
            lemma_rows_total_step(lens, row as int);
        }
        assert(s@ =~= keys + mds_sources(lens.take(row + 1)));
        row = row + 1;
    }
    assert(lens.take(lens.len() as int) =~= lens);
    assert(s@ =~= schedule(num_round_keys as nat, lens));
    s
}

/// The circuit is laid out on a domain of 2^11 gates.
pub fn padded_circuit_size() -> (n: usize)
    ensures
        n == 2048,
{
    assert(1usize << 11usize == 2048usize) by (bit_vector);
    1usize << 11usize
}

} // verus!
