use vstd::prelude::*;
use vstd::string::*;

verus! {

/// Pre-defined size class for cross-program circuit universality.
///
/// Two programs that fall into the same size class produce structurally identical
/// circuits, so they share a single trusted setup.
#[derive(Clone, Copy, Debug, PartialEq, Eq)]
pub struct SizeClass {
    pub name: &'static str,
    pub max_log_t: usize,
    pub max_bytecode_k: usize,
    pub max_ram_k: usize,
    /// Maximum number of u64 words in the program image:
    /// `max_bytecode_k / 2 + 1`.
    pub max_program_words: usize,
}

/// The size classes, smallest first.
pub open spec fn spec_size_classes() -> Seq<SizeClass> {
    seq![
        SizeClass { name: "S", max_log_t: 14, max_bytecode_k: 8192, max_ram_k: 8192, max_program_words: 4097 },
        SizeClass { name: "M", max_log_t: 18, max_bytecode_k: 16384, max_ram_k: 16384, max_program_words: 8193 },
        SizeClass { name: "L", max_log_t: 22, max_bytecode_k: 32768, max_ram_k: 32768, max_program_words: 16385 },
        SizeClass { name: "XL", max_log_t: 24, max_bytecode_k: 65536, max_ram_k: 65536, max_program_words: 32769 },
    ]
}

/// The size classes, smallest first.
pub fn size_classes() -> (r: Vec<SizeClass>)
    ensures
        r@ == spec_size_classes(),
{
    let r = vec![
        SizeClass { name: "S", max_log_t: 14, max_bytecode_k: 8192, max_ram_k: 8192, max_program_words: 8192 / 2 + 1 },
        SizeClass { name: "M", max_log_t: 18, max_bytecode_k: 16384, max_ram_k: 16384, max_program_words: 16384 / 2 + 1 },
        SizeClass { name: "L", max_log_t: 22, max_bytecode_k: 32768, max_ram_k: 32768, max_program_words: 32768 / 2 + 1 },
        SizeClass { name: "XL", max_log_t: 24, max_bytecode_k: 65536, max_ram_k: 65536, max_program_words: 65536 / 2 + 1 },
    ];
    assert(r@ =~= spec_size_classes());
    r
}

/// The first class (smallest first) from index `i` on that satisfies `p`.
pub open spec fn first_class_from(classes: Seq<SizeClass>, i: int, p: spec_fn(SizeClass) -> bool) -> Option<SizeClass>
    decreases classes.len() - i,
{
    if i < 0 || i >= classes.len() {
        None
    } else if p(classes[i]) {
        Some(classes[i])
    } else {
        first_class_from(classes, i + 1, p)
    }
}

/// The smallest class satisfying `p`, or `None`.
pub open spec fn first_class(p: spec_fn(SizeClass) -> bool) -> Option<SizeClass> {
    first_class_from(spec_size_classes(), 0, p)
}

/// A class fits a proof whose three sizes are all within its limits.
pub open spec fn fits_all(log_t: usize, bytecode_k: usize, ram_k: usize) -> spec_fn(SizeClass) -> bool {
    |c: SizeClass| log_t <= c.max_log_t && bytecode_k <= c.max_bytecode_k && ram_k <= c.max_ram_k
}

proof fn lemma_first_class_from_sound(classes: Seq<SizeClass>, i: int, p: spec_fn(SizeClass) -> bool)
    requires
        0 <= i <= classes.len(),
    ensures
        first_class_from(classes, i, p) matches Some(c) ==> p(c) && (exists|k: int| i <= k < classes.len() && classes[k] == c),
        first_class_from(classes, i, p) is None <==> (forall|k: int| i <= k < classes.len() ==> !p(#[trigger] classes[k])),
    decreases classes.len() - i,
{
    if i < classes.len() {
        lemma_first_class_from_sound(classes, i + 1, p);
    }
}

/// Linear search over the classes in order; the result is the first class
/// satisfying `p`, as `first_class_from` describes.
fn search_classes(classes: &Vec<SizeClass>, p: impl Fn(SizeClass) -> bool, sp: Ghost<spec_fn(SizeClass) -> bool>) -> (r: Option<SizeClass>)
    requires
        forall|c: SizeClass| #[trigger] p.requires((c,)),
        forall|c: SizeClass, b: bool| p.ensures((c,), b) ==> b == sp@(c),
    ensures
        r == first_class_from(classes@, 0, sp@),
{
    let mut i: usize = 0;
    while i < classes.len()
        invariant
            i <= classes.len(),
            forall|c: SizeClass| #[trigger] p.requires((c,)),
            forall|c: SizeClass, b: bool| p.ensures((c,), b) ==> b == sp@(c),
            first_class_from(classes@, 0, sp@) == first_class_from(classes@, i as int, sp@),
        decreases classes.len() - i,
    {
        let c = classes[i];
        if p(c) {
            return Some(c);
        }
        i += 1;
    }
    None
}

/// Returns the smallest size class that fits the given parameters,
/// or `None` if the proof exceeds all predefined classes.
pub fn find_class(log_t: usize, bytecode_k: usize, ram_k: usize) -> (r: Option<SizeClass>)
    ensures
        r == first_class(fits_all(log_t, bytecode_k, ram_k)),
{
    let classes = size_classes();
    let f = |c: SizeClass| -> (b: bool)
        ensures b == (log_t <= c.max_log_t && bytecode_k <= c.max_bytecode_k && ram_k <= c.max_ram_k)
    {
        log_t <= c.max_log_t && bytecode_k <= c.max_bytecode_k && ram_k <= c.max_ram_k
    };
    search_classes(&classes, f, Ghost(fits_all(log_t, bytecode_k, ram_k)))
}


/// 2 to the power `k`.
pub open spec fn two_pow(k: nat) -> nat
    decreases k,
{
    if k == 0 {
        1
    } else {
        2 * two_pow((k - 1) as nat)
    }
}

/// Powers of two grow with the exponent and are at least one.
pub proof fn lemma_two_pow_monotone(a: nat, b: nat)
    requires
        a <= b,
    ensures
        two_pow(a) <= two_pow(b),
        two_pow(a) >= 1,
    decreases b,
{
    if b > a {
        lemma_two_pow_monotone(a, (b - 1) as nat);
    } else if a > 0 {
        lemma_two_pow_monotone((a - 1) as nat, (a - 1) as nat);
    }
}

/// `k` is the exponent of the smallest power of two that is at least `n`.
pub open spec fn is_ceil_log2(n: nat, k: nat) -> bool {
    two_pow(k) >= n && (k == 0 || two_pow((k - 1) as nat) < n)
}

/// The exponent of the smallest power of two that is at least `n`
/// (0 for `n <= 1`).
pub open spec fn ceil_log2(n: nat) -> nat {
    choose|k: nat| is_ceil_log2(n, k)
}

/// `ceil_log2` is the exponent `is_ceil_log2` describes.
pub proof fn lemma_ceil_log2_unique(n: nat, k: nat)
    requires
        is_ceil_log2(n, k),
    ensures
        ceil_log2(n) == k,
{
    let j = ceil_log2(n);
    assert(is_ceil_log2(n, j));
    if j < k {
        lemma_two_pow_monotone(j, (k - 1) as nat);
    } else if k < j {
        lemma_two_pow_monotone(k, (j - 1) as nat);
    }
}

proof fn lemma_two_pow_above(k: nat)
    ensures
        two_pow(k) >= k + 1,
    decreases k,
{
    if k > 0 {
        lemma_two_pow_above((k - 1) as nat);
    }
}

proof fn lemma_ceil_log2_below(n: nat, k: nat)
    requires
        two_pow(k) >= n,
    ensures
        is_ceil_log2(n, ceil_log2(n)),
        ceil_log2(n) <= k,
    decreases k,
{
    if k == 0 || two_pow((k - 1) as nat) < n {
        lemma_ceil_log2_unique(n, k);
    } else {
        lemma_ceil_log2_below(n, (k - 1) as nat);
    }
}

/// Every `n` has its exponent: `2^ceil_log2(n)` is the smallest power of two
/// that is at least `n`, and it is below `2n` when `n > 1`.
pub proof fn lemma_ceil_log2(n: nat)
    ensures
        is_ceil_log2(n, ceil_log2(n)),
        n > 1 ==> two_pow(ceil_log2(n)) < 2 * n,
{
    lemma_two_pow_above(n);
    lemma_ceil_log2_below(n, n);
    let k = ceil_log2(n);
    if n > 1 && k == 0 {
        assert(two_pow(0) == 1);
    }
}

/// The exponent and value of the smallest power of two that is at least `n`
/// (what `usize::next_power_of_two` returns, and its `trailing_zeros`).
fn next_power_of_two_exp(n: usize) -> (r: (usize, usize))
    requires
        n <= usize::MAX / 2 + 1,
    ensures
        r.0 == ceil_log2(n as nat),
        r.1 == two_pow(ceil_log2(n as nat)),
{
    let mut k: usize = 0;
    let mut p: usize = 1;
    while p < n
        invariant
            n <= usize::MAX / 2 + 1,
            p == two_pow(k as nat),
            k == 0 || two_pow((k - 1) as nat) < n,
            k < p,
        decreases n - k,
    {
        assert(two_pow((k + 1) as nat) == 2 * two_pow(k as nat));
        p = p * 2;
        k = k + 1;
    }
    proof {
        lemma_ceil_log2_unique(n as nat, k as nat);
    }
    (k, p)
}

/// A class fits a program when its trace and bytecode exponents are within limits.
pub open spec fn fits_program(log_t: nat, bytecode_k: nat) -> spec_fn(SizeClass) -> bool {
    |c: SizeClass| log_t <= c.max_log_t && bytecode_k <= c.max_bytecode_k
}

/// Returns the smallest size class that fits a program with the given bytecode
/// instruction count and max trace length: the trace length and instruction
/// count are rounded up to powers of two, and the trace's exponent is compared
/// to the class's `max_log_t`.
pub fn find_class_for_program(bytecode_instruction_count: usize, max_trace_length: usize) -> (r: Option<SizeClass>)
    requires
        bytecode_instruction_count <= usize::MAX / 2 + 1,
        max_trace_length <= usize::MAX / 2 + 1,
    ensures
        r == first_class(fits_program(ceil_log2(max_trace_length as nat), two_pow(ceil_log2(bytecode_instruction_count as nat)))),
{
    let (log_t, _) = next_power_of_two_exp(max_trace_length);
    let (_, bytecode_k) = next_power_of_two_exp(bytecode_instruction_count);
    let classes = size_classes();
    let f = |c: SizeClass| -> (b: bool)
        ensures b == (log_t <= c.max_log_t && bytecode_k <= c.max_bytecode_k)
    {
        log_t <= c.max_log_t && bytecode_k <= c.max_bytecode_k
    };
    let r = search_classes(&classes, f, Ghost(fits_program(log_t as nat, bytecode_k as nat)));
    r
}

/// ASCII lowercase code of a character (other characters keep their code).
pub open spec fn ascii_lower_code(c: char) -> u32 {
    if 65 <= (c as u32) <= 90 {
        (c as u32 + 32) as u32
    } else {
        c as u32
    }
}

/// Two strings match ignoring ASCII case.
pub open spec fn eq_ignore_ascii_case_spec(a: Seq<char>, b: Seq<char>) -> bool {
    a.len() == b.len() && forall|i: int| 0 <= i < a.len() ==> ascii_lower_code(#[trigger] a[i]) == ascii_lower_code(b[i])
}

fn lower_code(c: char) -> (r: u32)
    ensures
        r == ascii_lower_code(c),
{
    let v = c as u32;
    if 65 <= v && v <= 90 {
        v + 32
    } else {
        v
    }
}

/// ASCII case-insensitive comparison of two strings.
fn str_eq_ignore_ascii_case(a: &str, b: &str) -> (r: bool)
    ensures
        r == eq_ignore_ascii_case_spec(a@, b@),
{
    let n = a.unicode_len();
    if n != b.unicode_len() {
        return false;
    }
    let mut i: usize = 0;
    while i < n
        invariant
            n == a@.len(),
            n == b@.len(),
            i <= n,
            forall|j: int| 0 <= j < i ==> ascii_lower_code(#[trigger] a@[j]) == ascii_lower_code(b@[j]),
        decreases n - i,
    {
        if lower_code(a.get_char(i)) != lower_code(b.get_char(i)) {
            return false;
        }
        i += 1;
    }
    true
}

/// A class whose name matches `name` ignoring ASCII case.
pub open spec fn name_matches(name: Seq<char>) -> spec_fn(SizeClass) -> bool {
    |c: SizeClass| eq_ignore_ascii_case_spec(c.name@, name)
}

/// Looks up a size class by name (ASCII case-insensitive).
pub fn find_class_by_name(name: &str) -> (r: Option<SizeClass>)
    ensures
        r == first_class(name_matches(name@)),
{
    let classes = size_classes();
    let f = |c: SizeClass| -> (b: bool)
        ensures b == eq_ignore_ascii_case_spec(c.name@, name@)
    {
        str_eq_ignore_ascii_case(c.name, name)
    };
    search_classes(&classes, f, Ghost(name_matches(name@)))
}

// ---------------------------------------------------------------------------
// Laws
// ---------------------------------------------------------------------------

/// `find_class_for_program` is `find_class` on the rounded sizes: the trace
/// length's exponent and the instruction count rounded up to a power of two,
/// with no RAM requirement.
pub proof fn law_find_class_for_program(bytecode_instruction_count: usize, max_trace_length: usize)
    requires
        bytecode_instruction_count <= usize::MAX / 2 + 1,
        max_trace_length <= usize::MAX / 2 + 1,
    ensures
        ({
            let log_t = ceil_log2(max_trace_length as nat);
            let k = two_pow(ceil_log2(bytecode_instruction_count as nat));
            &&& log_t <= usize::MAX
            &&& k <= usize::MAX
            &&& first_class(fits_program(log_t, k)) == first_class(fits_all(log_t as usize, k as usize, 0))
        }),
{
    let log_t = ceil_log2(max_trace_length as nat);
    let k = two_pow(ceil_log2(bytecode_instruction_count as nat));
    lemma_ceil_log2(max_trace_length as nat);
    lemma_ceil_log2(bytecode_instruction_count as nat);
    lemma_two_pow_above(log_t);
    if max_trace_length <= 1 {
        assert(two_pow(0) == 1);
    }
    if bytecode_instruction_count <= 1 {
        assert(two_pow(0) == 1);
    }
    assert(fits_program(log_t, k) =~= fits_all(log_t as usize, k as usize, 0));
}

/// `find_class` answers the smallest class that fits: the class it returns
/// fits, and every smaller class does not; it answers `None` exactly when no
/// class fits.
pub proof fn law_find_class_smallest_fit(log_t: usize, bytecode_k: usize, ram_k: usize)
    ensures
        ({
            let cs = spec_size_classes();
            let fits = fits_all(log_t, bytecode_k, ram_k);
            &&& first_class(fits) matches Some(c) ==> exists|k: int|
                0 <= k < cs.len() && cs[k] == c && fits(c) && forall|j: int| 0 <= j < k ==> !fits(#[trigger] cs[j])
            &&& first_class(fits) is None <==> forall|k: int| 0 <= k < cs.len() ==> !fits(#[trigger] cs[k])
        }),
{
    reveal_with_fuel(first_class_from, 5);
    let cs = spec_size_classes();
    let fits = fits_all(log_t, bytecode_k, ram_k);
    if fits(cs[0]) {
        assert(cs[0] == cs[0] && forall|j: int| 0 <= j < 0 ==> !fits(#[trigger] cs[j]));
    } else if fits(cs[1]) {
        assert(forall|j: int| 0 <= j < 1 ==> !fits(#[trigger] cs[j]));
    } else if fits(cs[2]) {
        assert(forall|j: int| 0 <= j < 2 ==> !fits(#[trigger] cs[j]));
    } else if fits(cs[3]) {
        assert(forall|j: int| 0 <= j < 3 ==> !fits(#[trigger] cs[j]));
    } else {
        assert(forall|k: int| 0 <= k < cs.len() ==> !fits(#[trigger] cs[k]));
    }
}

/// A larger proof never gets a smaller class: when each size of one proof is
/// at most the corresponding size of another, and the larger one has a
/// class, the smaller one has a class too, with limits no larger.
pub proof fn law_find_class_monotone(
    log_t: usize, bytecode_k: usize, ram_k: usize,
    log_t2: usize, bytecode_k2: usize, ram_k2: usize,
)
    requires
        log_t <= log_t2,
        bytecode_k <= bytecode_k2,
        ram_k <= ram_k2,
    ensures
        first_class(fits_all(log_t2, bytecode_k2, ram_k2)) matches Some(c2) ==> (
            first_class(fits_all(log_t, bytecode_k, ram_k)) matches Some(c1)
            && c1.max_log_t <= c2.max_log_t
            && c1.max_bytecode_k <= c2.max_bytecode_k
            && c1.max_ram_k <= c2.max_ram_k),
{
    reveal_with_fuel(first_class_from, 5);
}

} // verus!
