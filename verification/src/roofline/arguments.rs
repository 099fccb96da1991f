//! What the driver measures: the workloads, and the command line that selects among them.
use vstd::prelude::*;
use vstd::string::*;

use super::workloads::BATCH;

verus! {

/// Workloads there are.
pub const WORKLOADS: usize = 12;

/// Repetitions that are timed unless the command line says otherwise.
pub const DEFAULT_REPS: usize = 7;

/// Most repetitions.
pub const MAX_REPS: usize = 64;

/// A workload as it is reported.
#[derive(Clone, Copy, Debug)]
pub struct Workload {
    pub name: &'static str,
    /// What one operation is.
    pub unit: &'static str,
    /// Iterations per call at full scale.
    pub n: usize,
    /// Operations an iteration performs.
    pub ops_per_iter: usize,
}

/// The name of workload `i`.
pub open spec fn name_at(i: int) -> Seq<char> {
    if i == 0 {
        "alloc_free_32"@
    } else if i == 1 {
        "alloc_free_32_align16"@
    } else if i == 2 {
        "batch_lifo_32"@
    } else if i == 3 {
        "batch_fifo_32"@
    } else if i == 4 {
        "churn"@
    } else if i == 5 {
        "random_actions"@
    } else if i == 6 {
        "random_actions_norealloc"@
    } else if i == 7 {
        "vec_push_growth"@
    } else if i == 8 {
        "realloc_doubling"@
    } else if i == 9 {
        "large_alloc_free"@
    } else if i == 10 {
        "memory_grow_only"@
    } else {
        "memory_grow_touch"@
    }
}

/// What one operation of workload `i` is.
pub open spec fn unit_at(i: int) -> Seq<char> {
    if i == 0 || i == 2 || i == 3 {
        "alloc+free pair"@
    } else if i == 1 {
        "alloc+free pair, align 16"@
    } else if i == 4 {
        "free+alloc step"@
    } else if i == 5 {
        "action (3/7 alloc, 3/7 free, 1/7 realloc)"@
    } else if i == 6 {
        "action (1/2 alloc, 1/2 free)"@
    } else if i == 7 {
        "1 MiB Vec<u8> growth"@
    } else if i == 8 {
        "16 B to 1 MiB realloc chain"@
    } else if i == 9 {
        "alloc+touch+free, 256K-4M"@
    } else if i == 10 {
        "memory.grow 1 MiB, untouched"@
    } else {
        "memory.grow 1 MiB + touch"@
    }
}

/// The iterations of workload `i` per call at full scale.
pub open spec fn iterations_at(i: int) -> int {
    if i < 2 {
        2_000_000
    } else if i < 4 {
        2_000
    } else if i == 4 {
        200_000
    } else if i < 7 {
        100_000
    } else if i == 7 {
        20
    } else if i == 8 {
        100
    } else if i == 9 {
        50
    } else {
        16
    }
}

/// Workload `i`.
pub fn workload(i: usize) -> (r: Workload)
    requires
        i < WORKLOADS,
    ensures
        r.name@ == name_at(i as int),
        r.unit@ == unit_at(i as int),
        r.n == iterations_at(i as int),
        r.ops_per_iter == if i == 2 || i == 3 {
            BATCH
        } else {
            1
        },
{
    let pair = "alloc+free pair";
    if i == 0 {
        Workload { name: "alloc_free_32", unit: pair, n: 2_000_000, ops_per_iter: 1 }
    } else if i == 1 {
        Workload {
            name: "alloc_free_32_align16",
            unit: "alloc+free pair, align 16",
            n: 2_000_000,
            ops_per_iter: 1,
        }
    } else if i == 2 {
        Workload { name: "batch_lifo_32", unit: pair, n: 2_000, ops_per_iter: BATCH }
    } else if i == 3 {
        Workload { name: "batch_fifo_32", unit: pair, n: 2_000, ops_per_iter: BATCH }
    } else if i == 4 {
        Workload { name: "churn", unit: "free+alloc step", n: 200_000, ops_per_iter: 1 }
    } else if i == 5 {
        Workload {
            name: "random_actions",
            unit: "action (3/7 alloc, 3/7 free, 1/7 realloc)",
            n: 100_000,
            ops_per_iter: 1,
        }
    } else if i == 6 {
        Workload {
            name: "random_actions_norealloc",
            unit: "action (1/2 alloc, 1/2 free)",
            n: 100_000,
            ops_per_iter: 1,
        }
    } else if i == 7 {
        Workload {
            name: "vec_push_growth",
            unit: "1 MiB Vec<u8> growth",
            n: 20,
            ops_per_iter: 1,
        }
    } else if i == 8 {
        Workload {
            name: "realloc_doubling",
            unit: "16 B to 1 MiB realloc chain",
            n: 100,
            ops_per_iter: 1,
        }
    } else if i == 9 {
        Workload {
            name: "large_alloc_free",
            unit: "alloc+touch+free, 256K-4M",
            n: 50,
            ops_per_iter: 1,
        }
    } else if i == 10 {
        Workload {
            name: "memory_grow_only",
            unit: "memory.grow 1 MiB, untouched",
            n: 16,
            ops_per_iter: 1,
        }
    } else {
        Workload {
            name: "memory_grow_touch",
            unit: "memory.grow 1 MiB + touch",
            n: 16,
            ops_per_iter: 1,
        }
    }
}

/// The first workload from `i` on with this name.
pub open spec fn position_from(name: Seq<char>, i: int) -> Option<int>
    decreases WORKLOADS - i,
{
    if i >= WORKLOADS {
        None
    } else if name == name_at(i) {
        Some(i)
    } else {
        position_from(name, i + 1)
    }
}

/// The digits of a number are all that is left of it without a plus sign.
pub open spec fn unsigned(s: Seq<char>) -> Seq<char> {
    if s.len() > 0 && s[0] == '+' {
        s.skip(1)
    } else {
        s
    }
}

/// All characters are decimal digits.
pub open spec fn all_digits(s: Seq<char>) -> bool {
    forall|i: int| 0 <= i < s.len() ==> '0' <= #[trigger] s[i] <= '9'
}

/// The number that decimal digits stand for.
pub open spec fn value(s: Seq<char>) -> int
    decreases s.len(),
{
    if s.len() == 0 {
        0
    } else {
        value(s.drop_last()) * 10 + (s.last() as int - '0' as int)
    }
}

/// The count that a text stands for: decimal digits, with or without a plus sign, of a number that
/// fits.
pub open spec fn count_of(s: Seq<char>) -> Option<int> {
    let d = unsigned(s);
    if d.len() > 0 && all_digits(d) && value(d) <= usize::MAX {
        Some(value(d))
    } else {
        None
    }
}

/// Where the first comma is, or the end.
pub open spec fn comma(s: Seq<char>) -> int
    decreases s.len(),
{
    if s.len() == 0 || s[0] == ',' {
        0
    } else {
        1 + comma(s.skip(1))
    }
}

/// The workloads of a comma-separated list, one bit each, besides those of `mask`; or the first
/// name that is none.
pub open spec fn selected(s: Seq<char>, mask: u32) -> Result<u32, Seq<char>>
    decreases s.len(),
{
    let k = comma(s);
    if k < 0 || k > s.len() {
        Err(s)
    } else {
        match position_from(s.take(k), 0) {
            None => Err(s.take(k)),
            Some(i) => {
                let m = mask | (1u32 << (i as u32));
                if k < s.len() {
                    selected(s.skip(k + 1), m)
                } else {
                    Ok(m)
                }
            },
        }
    }
}

/// What the command line asks for.
#[derive(Clone, Copy, Debug, PartialEq, Eq, Structural)]
pub struct Args {
    pub json: bool,
    pub reps: usize,
    /// Which argument is the scale; full scale without one.
    pub scale: Option<usize>,
    /// Bit `i` set: run workload `i`.
    pub only: u32,
}

/// What is wrong with a command line.
#[derive(Debug)]
pub enum ArgError {
    Usage,
    UnknownWorkload(String),
}

/// What is wrong with a command line, in the terms of the grammar.
pub enum Fault {
    Usage,
    UnknownWorkload(Seq<char>),
}

/// The command line without arguments.
pub open spec fn default_args() -> Args {
    Args { json: false, reps: DEFAULT_REPS, scale: None, only: u32::MAX }
}

/// The arguments from the `i`th on. `positive[k]` says whether argument `k` reads as a number
/// above zero.
pub open spec fn parsed(
    args: Seq<Seq<char>>,
    positive: Seq<bool>,
    i: int,
    a: Args,
) -> Result<Args, Fault>
    decreases args.len() - i,
{
    if i >= args.len() {
        Ok(a)
    } else if args[i] == "--json"@ {
        parsed(args, positive, i + 1, Args { json: true, ..a })
    } else if args[i] == "--reps"@ {
        if i + 1 >= args.len() {
            Err(Fault::Usage)
        } else {
            match count_of(args[i + 1]) {
                None => Err(Fault::Usage),
                Some(n) => if n == 0 || n > MAX_REPS {
                    Err(Fault::Usage)
                } else {
                    parsed(args, positive, i + 2, Args { reps: n as usize, ..a })
                },
            }
        }
    } else if args[i] == "--scale"@ {
        if i + 1 >= args.len() || !positive[i + 1] {
            Err(Fault::Usage)
        } else {
            parsed(args, positive, i + 2, Args { scale: Some((i + 1) as usize), ..a })
        }
    } else if args[i] == "--only"@ {
        if i + 1 >= args.len() {
            Err(Fault::Usage)
        } else {
            match selected(args[i + 1], 0) {
                Err(name) => Err(Fault::UnknownWorkload(name)),
                Ok(mask) => parsed(args, positive, i + 2, Args { only: mask, ..a }),
            }
        }
    } else {
        Err(Fault::Usage)
    }
}

/// Two texts are the same.
fn same(a: &str, b: &str) -> (r: bool)
    ensures
        r == (a@ == b@),
{
    let n: usize = a.unicode_len();
    if n != b.unicode_len() {
        return false;
    }
    let mut i: usize = 0;
    while i < n
        invariant
            i <= n,
            n == a@.len(),
            n == b@.len(),
            forall|k: int| 0 <= k < i ==> a@[k] == b@[k],
        decreases n - i,
    {
        if a.get_char(i) != b.get_char(i) {
            return false;
        }
        i = i + 1;
    }
    proof {
        assert(a@ =~= b@);
    }
    true
}

/// The workload with this name.
pub fn position(name: &str) -> (r: Option<usize>)
    ensures
        match r {
            Some(i) => position_from(name@, 0) == Some(i as int) && i < WORKLOADS,
            None => position_from(name@, 0) is None,
        },
{
    let mut i: usize = 0;
    while i < WORKLOADS
        invariant
            i <= WORKLOADS,
            position_from(name@, 0) == position_from(name@, i as int),
        decreases WORKLOADS - i,
    {
        if same(name, workload(i).name) {
            return Some(i);
        }
        i = i + 1;
    }
    None
}

proof fn lemma_value_grows(s: Seq<char>, k: int)
    requires
        0 <= k <= s.len(),
        all_digits(s),
    ensures
        0 <= value(s.take(k)) <= value(s),
    decreases s.len() - k,
{
    if k < s.len() {
        lemma_value_grows(s, k + 1);
        assert(s.take(k + 1).drop_last() =~= s.take(k));
        assert(s.take(k + 1).last() == s[k]);
        lemma_value_nonnegative(s.take(k));
    } else {
        assert(s.take(k) =~= s);
        lemma_value_nonnegative(s);
    }
}

proof fn lemma_value_nonnegative(s: Seq<char>)
    requires
        all_digits(s),
    ensures
        value(s) >= 0,
    decreases s.len(),
{
    if s.len() > 0 {
        assert forall|i: int| 0 <= i < s.drop_last().len() implies '0'
            <= #[trigger] s.drop_last()[i] <= '9' by {
            assert(s.drop_last()[i] == s[i]);
        }
        lemma_value_nonnegative(s.drop_last());
    }
}

/// The count that a text stands for.
pub fn parse_count(s: &str) -> (r: Option<usize>)
    ensures
        match r {
            Some(n) => count_of(s@) == Some(n as int),
            None => count_of(s@) is None,
        },
{
    let n: usize = s.unicode_len();
    let ghost d = unsigned(s@);
    let mut i: usize = 0;
    if n > 0 && s.get_char(0) == '+' {
        i = 1;
    }
    let start: usize = i;
    if i == n {
        return None;
    }
    let mut v: usize = 0;
    proof {
        assert(d.take(0) =~= Seq::<char>::empty());
    }
    while i < n
        invariant
            start <= i <= n,
            start <= 1,
            n == s@.len(),
            d == unsigned(s@),
            d.len() == n - start,
            d.len() > 0,
            forall|k: int| 0 <= k < d.len() ==> #[trigger] d[k] == s@[k + start],
            forall|k: int| 0 <= k < i - start ==> '0' <= #[trigger] d[k] <= '9',
            v == value(d.take(i - start)),
        decreases n - i,
    {
        let c: char = s.get_char(i);
        let ghost k: int = i - start;
        proof {
            assert(d[k] == c);
            assert(d.take(k + 1).drop_last() =~= d.take(k));
            assert(d.take(k + 1).last() == c);
        }
        if c < '0' || c > '9' {
            return None;
        }
        let digit: usize = (c as u32 - '0' as u32) as usize;
        proof {
            if all_digits(d) {
                lemma_value_grows(d, k + 1);
            }
        }
        let tens: usize = match v.checked_mul(10) {
            Some(tens) => tens,
            None => {
                return None;
            },
        };
        v = match tens.checked_add(digit) {
            Some(sum) => sum,
            None => {
                return None;
            },
        };
        i = i + 1;
    }
    proof {
        assert(d.take(d.len() as int) =~= d);
    }
    Some(v)
}

proof fn lemma_comma(s: Seq<char>)
    ensures
        0 <= comma(s) <= s.len(),
    decreases s.len(),
{
    if s.len() > 0 && s[0] != ',' {
        lemma_comma(s.skip(1));
    }
}

/// Where the first comma from `from` on is, or the end.
fn find_comma(s: &str, from: usize) -> (r: usize)
    requires
        from <= s@.len(),
    ensures
        from <= r <= s@.len(),
        r == from + comma(s@.skip(from as int)),
{
    let n: usize = s.unicode_len();
    let mut i: usize = from;
    while i < n && s.get_char(i) != ','
        invariant
            from <= i <= n,
            n == s@.len(),
            comma(s@.skip(from as int)) == i - from + comma(s@.skip(i as int)),
        decreases n - i,
    {
        proof {
            let t = s@.skip(i as int);
            assert(t[0] == s@[i as int]);
            assert(t.skip(1) =~= s@.skip(i + 1));
        }
        i = i + 1;
    }
    proof {
        let t = s@.skip(i as int);
        if i < n {
            assert(t[0] == s@[i as int]);
        }
    }
    i
}

/// The workloads of a comma-separated list, one bit each, or the first name that is none.
pub fn parse_only(list: &str) -> (r: Result<u32, String>)
    ensures
        match r {
            Ok(mask) => selected(list@, 0) == Ok::<u32, Seq<char>>(mask),
            Err(name) => selected(list@, 0) == Err::<u32, Seq<char>>(name@),
        },
{
    let n: usize = list.unicode_len();
    let mut mask: u32 = 0;
    let mut from: usize = 0;
    proof {
        assert(list@.skip(0) =~= list@);
    }
    loop
        invariant
            from <= n,
            n == list@.len(),
            selected(list@, 0) == selected(list@.skip(from as int), mask),
        decreases n - from,
    {
        let ghost t = list@.skip(from as int);
        let end: usize = find_comma(list, from);
        proof {
            lemma_comma(t);
            assert(t.take(comma(t)) =~= list@.subrange(from as int, end as int));
        }
        let name: &str = list.substring_char(from, end);
        match position(name) {
            None => {
                return Err(String::from_str(name));
            },
            Some(i) => {
                mask = mask | (1u32 << (i as u32));
            },
        }
        if end == n {
            return Ok(mask);
        }
        proof {
            assert(t.skip(comma(t) + 1) =~= list@.skip(end + 1));
        }
        from = end + 1;
    }
}

/// The texts of the arguments.
pub open spec fn texts(args: Seq<String>) -> Seq<Seq<char>> {
    Seq::new(args.len(), |i: int| args[i]@)
}

/// Parse the command line. `positive[i]` says whether argument `i` reads as a number above zero.
pub fn parse_args(args: &Vec<String>, positive: &Vec<bool>) -> (r: Result<Args, ArgError>)
    requires
        positive@.len() == args@.len(),
    ensures
        match r {
            Ok(a) => parsed(texts(args@), positive@, 0, default_args()) == Ok::<Args, Fault>(a),
            Err(ArgError::Usage) => parsed(texts(args@), positive@, 0, default_args()) == Err::<
                Args,
                Fault,
            >(Fault::Usage),
            Err(ArgError::UnknownWorkload(name)) => parsed(
                texts(args@),
                positive@,
                0,
                default_args(),
            ) == Err::<Args, Fault>(Fault::UnknownWorkload(name@)),
        },
{
    let mut a = Args { json: false, reps: DEFAULT_REPS, scale: None, only: u32::MAX };
    let ghost t = texts(args@);
    let n: usize = args.len();
    let mut i: usize = 0;
    while i < n
        invariant
            i <= n,
            n == args@.len(),
            positive@.len() == n,
            t == texts(args@),
            parsed(t, positive@, 0, default_args()) == parsed(t, positive@, i as int, a),
        decreases n - i,
    {
        let arg: &str = args[i].as_str();
        proof {
            assert(t[i as int] == arg@);
        }
        if same(arg, "--json") {
            a = Args { json: true, ..a };
            i = i + 1;
            continue;
        }
        if same(arg, "--reps") {
            if n - i < 2 {
                return Err(ArgError::Usage);
            }
            assert(t[i + 1] == args@[i + 1]@);
            match parse_count(args[i + 1].as_str()) {
                None => {
                    return Err(ArgError::Usage);
                },
                Some(reps) => {
                    if reps == 0 || reps > MAX_REPS {
                        return Err(ArgError::Usage);
                    }
                    a = Args { reps, ..a };
                },
            }
        } else if same(arg, "--scale") {
            if n - i < 2 || !positive[i + 1] {
                return Err(ArgError::Usage);
            }
            a = Args { scale: Some(i + 1), ..a };
        } else if same(arg, "--only") {
            if n - i < 2 {
                return Err(ArgError::Usage);
            }
            assert(t[i + 1] == args@[i + 1]@);
            match parse_only(args[i + 1].as_str()) {
                Err(name) => {
                    return Err(ArgError::UnknownWorkload(name));
                },
                Ok(mask) => {
                    a = Args { only: mask, ..a };
                },
            }
        } else {
            return Err(ArgError::Usage);
        }
        i = i + 2;
    }
    Ok(a)
}

/// Every workload is found under its own name.
pub proof fn law_names_find_their_workloads(i: int)
    requires
        0 <= i < WORKLOADS,
    ensures
        position_from(name_at(i), 0) == Some(i),
{
    lemma_found(i, 0);
}

proof fn lemma_found(i: int, j: int)
    requires
        0 <= j <= i < WORKLOADS,
    ensures
        position_from(name_at(i), j) == Some(i),
    decreases i - j,
{
    if j < i {
        lemma_names_differ(j, i);
        lemma_found(i, j + 1);
    }
}

proof fn lemma_names_differ(j: int, i: int)
    requires
        0 <= j < i < WORKLOADS,
    ensures
        name_at(j) != name_at(i),
{
    reveal_strlit("alloc_free_32");
    reveal_strlit("alloc_free_32_align16");
    reveal_strlit("batch_lifo_32");
    reveal_strlit("batch_fifo_32");
    reveal_strlit("churn");
    reveal_strlit("random_actions");
    reveal_strlit("random_actions_norealloc");
    reveal_strlit("vec_push_growth");
    reveal_strlit("realloc_doubling");
    reveal_strlit("large_alloc_free");
    reveal_strlit("memory_grow_only");
    reveal_strlit("memory_grow_touch");
    let a = name_at(j);
    let b = name_at(i);
    if a.len() == b.len() {
        assert(a[0] != b[0] || a[6] != b[6]);
    }
}

/// A workload is what its name says, wherever it stands in the list.
pub proof fn law_names_stand_for_their_workloads(i: int)
    requires
        0 <= i < WORKLOADS,
    ensures
        name_at(i) == "alloc_free_32"@ ==> unit_at(i) == "alloc+free pair"@ && iterations_at(i)
            == 2_000_000,
        name_at(i) == "alloc_free_32_align16"@ ==> unit_at(i) == "alloc+free pair, align 16"@
            && iterations_at(i) == 2_000_000,
        name_at(i) == "batch_lifo_32"@ ==> unit_at(i) == "alloc+free pair"@ && iterations_at(i)
            == 2_000,
        name_at(i) == "batch_fifo_32"@ ==> unit_at(i) == "alloc+free pair"@ && iterations_at(i)
            == 2_000,
        name_at(i) == "churn"@ ==> unit_at(i) == "free+alloc step"@ && iterations_at(i) == 200_000,
        name_at(i) == "random_actions"@ ==> unit_at(i)
            == "action (3/7 alloc, 3/7 free, 1/7 realloc)"@ && iterations_at(i) == 100_000,
        name_at(i) == "random_actions_norealloc"@ ==> unit_at(i) == "action (1/2 alloc, 1/2 free)"@
            && iterations_at(i) == 100_000,
        name_at(i) == "vec_push_growth"@ ==> unit_at(i) == "1 MiB Vec<u8> growth"@
            && iterations_at(i) == 20,
        name_at(i) == "realloc_doubling"@ ==> unit_at(i) == "16 B to 1 MiB realloc chain"@
            && iterations_at(i) == 100,
        name_at(i) == "large_alloc_free"@ ==> unit_at(i) == "alloc+touch+free, 256K-4M"@
            && iterations_at(i) == 50,
        name_at(i) == "memory_grow_only"@ ==> unit_at(i) == "memory.grow 1 MiB, untouched"@
            && iterations_at(i) == 16,
        name_at(i) == "memory_grow_touch"@ ==> unit_at(i) == "memory.grow 1 MiB + touch"@
            && iterations_at(i) == 16,
{
    lemma_names_differ_from(i);
}

proof fn lemma_names_differ_from(i: int)
    requires
        0 <= i < WORKLOADS,
    ensures
        forall|j: int| 0 <= j < WORKLOADS && j != i ==> #[trigger] name_at(j) != name_at(i),
        i != 0 ==> name_at(i) != "alloc_free_32"@,
        i != 1 ==> name_at(i) != "alloc_free_32_align16"@,
        i != 2 ==> name_at(i) != "batch_lifo_32"@,
        i != 3 ==> name_at(i) != "batch_fifo_32"@,
        i != 4 ==> name_at(i) != "churn"@,
        i != 5 ==> name_at(i) != "random_actions"@,
        i != 6 ==> name_at(i) != "random_actions_norealloc"@,
        i != 7 ==> name_at(i) != "vec_push_growth"@,
        i != 8 ==> name_at(i) != "realloc_doubling"@,
        i != 9 ==> name_at(i) != "large_alloc_free"@,
        i != 10 ==> name_at(i) != "memory_grow_only"@,
        i != 11 ==> name_at(i) != "memory_grow_touch"@,
{
    assert forall|j: int| 0 <= j < WORKLOADS && j != i implies #[trigger] name_at(j) != name_at(
        i,
    ) by {
        if j < i {
            lemma_names_differ(j, i);
        } else {
            lemma_names_differ(i, j);
        }
    }
    assert(name_at(0) == "alloc_free_32"@ && name_at(1) == "alloc_free_32_align16"@);
    assert(name_at(2) == "batch_lifo_32"@ && name_at(3) == "batch_fifo_32"@);
    assert(name_at(4) == "churn"@ && name_at(5) == "random_actions"@);
    assert(name_at(6) == "random_actions_norealloc"@ && name_at(7) == "vec_push_growth"@);
    assert(name_at(8) == "realloc_doubling"@ && name_at(9) == "large_alloc_free"@);
    assert(name_at(10) == "memory_grow_only"@ && name_at(11) == "memory_grow_touch"@);
}

/// A count is written in decimal digits, the most significant first, with or without a plus sign.
/// Nothing else is a count, nor is a number that does not fit.
pub proof fn law_counts_are_decimal(s: Seq<char>, c: char)
    ensures
        '0' <= c <= '9' ==> value(s.push(c)) == 10 * value(s) + (c as int - 48),
        value(Seq::empty()) == 0,
        s.len() > 0 && all_digits(s) && value(s) <= usize::MAX ==> count_of(s) == Some(value(s))
            && count_of(seq!['+'] + s) == Some(value(s)),
        s.len() > 0 && all_digits(s) && value(s) > usize::MAX ==> count_of(s) is None && count_of(
            seq!['+'] + s,
        ) is None,
        count_of(s) is Some ==> s.len() > 0 && (s[0] == '+' ==> s.len() > 1),
        count_of(s) is Some ==> forall|k: int|
            0 <= k < s.len() ==> '0' <= #[trigger] s[k] <= '9' || (k == 0 && s[k] == '+'),
{
    assert(s.push(c).drop_last() =~= s);
    let p = seq!['+'] + s;
    assert(p.skip(1) =~= s);
    if s.len() > 0 && all_digits(s) {
        assert('0' <= s[0] <= '9');
    }
    if count_of(s) is Some {
        let d = unsigned(s);
        assert forall|k: int| 0 <= k < s.len() implies '0' <= #[trigger] s[k] <= '9' || (k == 0
            && s[k] == '+') by {
            if s[0] == '+' {
                if k > 0 {
                    assert(d[k - 1] == s[k]);
                }
            } else {
                assert(d[k] == s[k]);
            }
        }
    }
}

/// The characters of `s` from `a` to `b` stand between commas, or at an end, and hold none.
pub open spec fn entry(s: Seq<char>, a: int, b: int) -> bool {
    &&& 0 <= a <= b <= s.len()
    &&& a == 0 || s[a - 1] == ','
    &&& b == s.len() || s[b] == ','
    &&& forall|k: int| a <= k < b ==> #[trigger] s[k] != ','
}

/// The entry from `a` to `b` is the name of a workload.
pub open spec fn names_one(s: Seq<char>, a: int, b: int) -> bool {
    exists|i: int| 0 <= i < WORKLOADS && s.subrange(a, b) == #[trigger] name_at(i)
}

/// Bit `i` is set.
pub open spec fn picks(mask: u32, i: int) -> bool {
    (mask >> (i as u32)) & 1 == 1
}

/// Every entry is the name of a workload.
pub open spec fn all_names(s: Seq<char>) -> bool {
    forall|a: int, b: int| #[trigger] entry(s, a, b) ==> names_one(s, a, b)
}

/// An entry is the name of workload `i`.
pub open spec fn has_name(s: Seq<char>, i: int) -> bool {
    exists|a: int, b: int| #[trigger] entry(s, a, b) && s.subrange(a, b) == name_at(i)
}

/// The entry from `a` to `b` is the first that is no name.
pub open spec fn first_unknown(s: Seq<char>, a: int, b: int) -> bool {
    &&& entry(s, a, b)
    &&& !names_one(s, a, b)
    &&& forall|c: int, d: int| #[trigger] entry(s, c, d) && d < a ==> names_one(s, c, d)
}

/// A list picks a workload if one of its entries is the workload's name, and no other. If an entry
/// is no name, the first such entry is handed back.
pub proof fn law_lists_pick_the_workloads_they_name(s: Seq<char>, i: int)
    requires
        0 <= i < 32,
    ensures
        match selected(s, 0) {
            Ok(mask) => all_names(s) && (picks(mask, i) <==> i < WORKLOADS && has_name(s, i)),
            Err(name) => exists|a: int, b: int| #[trigger]
                first_unknown(s, a, b) && name == s.subrange(a, b),
        },
{
    lemma_selected(s, 0, i);
    let j: u32 = i as u32;
    assert((0u32 >> j) & 1 != 1) by (bit_vector);
}

/// An entry is the first one, which ends at the first comma, or one of what follows it.
proof fn lemma_entry(s: Seq<char>, a: int, b: int)
    ensures
        0 <= comma(s) <= s.len(),
        entry(s, 0, comma(s)),
        a <= comma(s) ==> (entry(s, a, b) <==> a == 0 && b == comma(s)),
        a > comma(s) ==> (entry(s, a, b) <==> comma(s) < s.len() && entry(
            s.skip(comma(s) + 1),
            a - comma(s) - 1,
            b - comma(s) - 1,
        )),
{
    lemma_first_comma(s);
    let k: int = comma(s);
    let t = s.skip(k + 1);
    if entry(s, a, b) {
        if a == 0 {
            if b < k {
                assert(s[b] != ',');
            } else if b > k {
                assert(s[k] == ',');
            }
        } else {
            if a - 1 < k {
                assert(s[a - 1] != ',');
            }
            assert forall|x: int| a - k - 1 <= x < b - k - 1 implies #[trigger] t[x] != ',' by {
                assert(t[x] == s[x + k + 1]);
            }
            if a - k - 1 > 0 {
                assert(t[a - k - 2] == s[a - 1]);
            }
            if b < s.len() {
                assert(t[b - k - 1] == s[b]);
            }
        }
    }
    if k < s.len() && a > k && entry(t, a - k - 1, b - k - 1) {
        assert forall|x: int| a <= x < b implies #[trigger] s[x] != ',' by {
            assert(t[x - k - 1] == s[x]);
        }
        if a > k + 1 {
            assert(t[a - k - 2] == s[a - 1]);
        }
        if b < s.len() {
            assert(t[b - k - 1] == s[b]);
        }
    }
}

proof fn lemma_first_comma(s: Seq<char>)
    ensures
        0 <= comma(s) <= s.len(),
        comma(s) < s.len() ==> s[comma(s)] == ',',
        forall|k: int| 0 <= k < comma(s) ==> #[trigger] s[k] != ',',
    decreases s.len(),
{
    if s.len() > 0 && s[0] != ',' {
        let t = s.skip(1);
        lemma_first_comma(t);
        assert forall|k: int| 0 <= k < comma(s) implies #[trigger] s[k] != ',' by {
            if k > 0 {
                assert(t[k - 1] == s[k]);
            }
        }
    }
}

/// A name is found where it stands.
proof fn lemma_position(name: Seq<char>, j: int)
    requires
        0 <= j <= WORKLOADS,
    ensures
        match position_from(name, j) {
            Some(i) => j <= i < WORKLOADS && name == name_at(i),
            None => forall|i: int| j <= i < WORKLOADS ==> name != #[trigger] name_at(i),
        },
    decreases WORKLOADS - j,
{
    if j < WORKLOADS {
        lemma_position(name, j + 1);
    }
}

/// The entries behind the first comma.
proof fn lemma_rest(s: Seq<char>, i: int)
    requires
        0 <= i < WORKLOADS,
    ensures
        names_one(s, 0, comma(s)) && (comma(s) < s.len() ==> all_names(s.skip(comma(s) + 1)))
            ==> all_names(s),
        has_name(s, i) <==> s.take(comma(s)) == name_at(i) || (comma(s) < s.len() && has_name(
            s.skip(comma(s) + 1),
            i,
        )),
{
    let k: int = comma(s);
    let t = s.skip(k + 1);
    lemma_entry(s, 0, k);
    assert(s.subrange(0, k) =~= s.take(k));
    if names_one(s, 0, k) && (k < s.len() ==> all_names(t)) {
        assert forall|a: int, b: int| #[trigger] entry(s, a, b) implies names_one(s, a, b) by {
            lemma_entry(s, a, b);
            if a > k {
                assert(names_one(t, a - k - 1, b - k - 1));
                assert(t.subrange(a - k - 1, b - k - 1) =~= s.subrange(a, b));
            }
        }
    }
    if has_name(s, i) {
        let (a, b): (int, int) = choose|a: int, b: int| #[trigger]
            entry(s, a, b) && s.subrange(a, b) == name_at(i);
        lemma_entry(s, a, b);
        if a > k {
            assert(t.subrange(a - k - 1, b - k - 1) =~= s.subrange(a, b));
        }
    }
    if k < s.len() && has_name(t, i) {
        let (a, b): (int, int) = choose|a: int, b: int| #[trigger]
            entry(t, a, b) && t.subrange(a, b) == name_at(i);
        lemma_entry(s, a + k + 1, b + k + 1);
        assert(t.subrange(a, b) =~= s.subrange(a + k + 1, b + k + 1));
    }
}

/// The first entry that is no name, if it is behind the first comma.
proof fn lemma_unknown(s: Seq<char>, a: int, b: int)
    requires
        names_one(s, 0, comma(s)),
        comma(s) < s.len(),
        first_unknown(s.skip(comma(s) + 1), a, b),
    ensures
        first_unknown(s, a + comma(s) + 1, b + comma(s) + 1),
        s.skip(comma(s) + 1).subrange(a, b) == s.subrange(a + comma(s) + 1, b + comma(s) + 1),
{
    let k: int = comma(s);
    let t = s.skip(k + 1);
    lemma_entry(s, a + k + 1, b + k + 1);
    assert(t.subrange(a, b) =~= s.subrange(a + k + 1, b + k + 1));
    assert forall|c: int, d: int| #[trigger] entry(s, c, d) && d < a + k + 1 implies names_one(
        s,
        c,
        d,
    ) by {
        lemma_entry(s, c, d);
        if c > k {
            assert(names_one(t, c - k - 1, d - k - 1));
            assert(t.subrange(c - k - 1, d - k - 1) =~= s.subrange(c, d));
        }
    }
}

proof fn lemma_selected(s: Seq<char>, mask: u32, i: int)
    requires
        0 <= i < 32,
    ensures
        match selected(s, mask) {
            Ok(m) => all_names(s) && (picks(m, i) <==> picks(mask, i) || (i < WORKLOADS && has_name(
                s,
                i,
            ))),
            Err(name) => exists|a: int, b: int| #[trigger]
                first_unknown(s, a, b) && name == s.subrange(a, b),
        },
    decreases s.len(),
{
    lemma_comma(s);
    let k: int = comma(s);
    let t = s.skip(k + 1);
    let first = s.take(k);
    assert(s.subrange(0, k) =~= first);
    lemma_position(first, 0);
    match position_from(first, 0) {
        None => {
            lemma_entry(s, 0, k);
            assert(first_unknown(s, 0, k));
        },
        Some(p) => {
            assert(names_one(s, 0, k)) by {
                assert(s.subrange(0, k) == name_at(p));
            }
            let m: u32 = mask | (1u32 << (p as u32));
            let x: u32 = p as u32;
            let y: u32 = i as u32;
            assert(((mask | (1u32 << x)) >> y) & 1 == 1 <==> (mask >> y) & 1 == 1 || x == y)
                by (bit_vector)
                requires
                    x < 32,
                    y < 32,
            ;
            assert(picks(m, i) <==> picks(mask, i) || p == i);
            lemma_rest(s, p);
            if i < WORKLOADS {
                law_names_find_their_workloads(i);
                lemma_rest(s, i);
            }
            if k < s.len() {
                lemma_selected(t, m, i);
                if selected(t, m) is Err {
                    let (a, b): (int, int) = choose|a: int, b: int| #[trigger]
                        first_unknown(t, a, b) && selected(t, m)->Err_0 == t.subrange(a, b);
                    lemma_unknown(s, a, b);
                }
            }
        },
    }
}

/// What an argument or two at the end add to a command line that is in order. The last of two
/// settings holds.
pub proof fn law_arguments_are_read_in_turn(
    args: Seq<Seq<char>>,
    positive: Seq<bool>,
    a: Args,
    t: Seq<char>,
    p: bool,
    q: bool,
)
    requires
        positive.len() == args.len(),
        args.len() + 1 <= usize::MAX,
        parsed(args, positive, 0, default_args()) == Ok::<Args, Fault>(a),
    ensures
        args.len() == 0 ==> a == (Args { json: false, reps: 7, scale: None, only: u32::MAX }),
        parsed(args.push("--json"@), positive.push(p), 0, default_args()) == Ok::<Args, Fault>(
            Args { json: true, ..a },
        ),
        parsed(args.push("--reps"@).push(t), positive.push(p).push(q), 0, default_args())
            == if count_of(t) is Some && 1 <= count_of(t)->0 <= 64 {
            Ok::<Args, Fault>(Args { reps: count_of(t)->0 as usize, ..a })
        } else {
            Err(Fault::Usage)
        },
        parsed(args.push("--scale"@).push(t), positive.push(p).push(q), 0, default_args()) == if q {
            Ok::<Args, Fault>(Args { scale: Some((args.len() + 1) as usize), ..a })
        } else {
            Err(Fault::Usage)
        },
        parsed(args.push("--only"@).push(t), positive.push(p).push(q), 0, default_args()) == (
        match selected(t, 0) {
            Ok(mask) => Ok::<Args, Fault>(Args { only: mask, ..a }),
            Err(name) => Err(Fault::UnknownWorkload(name)),
        }),
        t != "--json"@ ==> parsed(args.push(t), positive.push(p), 0, default_args()) == Err::<
            Args,
            Fault,
        >(Fault::Usage),
{
    lemma_options_differ();
    lemma_one_more(args, positive, a, "--json"@, p);
    lemma_one_more(args, positive, a, t, p);
    lemma_two_more(args, positive, a, "--reps"@, t, p, q);
    lemma_two_more(args, positive, a, "--scale"@, t, p, q);
    lemma_two_more(args, positive, a, "--only"@, t, p, q);
}

proof fn lemma_options_differ()
    ensures
        "--json"@ != "--reps"@,
        "--json"@ != "--scale"@,
        "--json"@ != "--only"@,
        "--reps"@ != "--scale"@,
        "--reps"@ != "--only"@,
        "--scale"@ != "--only"@,
{
    reveal_strlit("--json");
    reveal_strlit("--reps");
    reveal_strlit("--scale");
    reveal_strlit("--only");
    assert("--json"@[2] != "--reps"@[2] && "--json"@[2] != "--only"@[2]);
    assert("--reps"@[2] != "--only"@[2]);
    assert("--scale"@.len() == 7 && "--json"@.len() == 6 && "--reps"@.len() == 6);
    assert("--only"@.len() == 6);
}

proof fn lemma_one_more(
    args: Seq<Seq<char>>,
    positive: Seq<bool>,
    a: Args,
    t: Seq<char>,
    p: bool,
)
    requires
        positive.len() == args.len(),
        parsed(args, positive, 0, default_args()) == Ok::<Args, Fault>(a),
    ensures
        parsed(args.push(t), positive.push(p), 0, default_args()) == if t == "--json"@ {
            Ok::<Args, Fault>(Args { json: true, ..a })
        } else {
            Err(Fault::Usage)
        },
{
    let n: int = args.len() as int;
    let more = args.push(t);
    let also = positive.push(p);
    assert(more.take(n) =~= args);
    assert(also.take(n) =~= positive);
    lemma_read_on(args, positive, 0, default_args(), more, also);
    assert(more[n] == t);
    assert(parsed(more, also, n + 1, Args { json: true, ..a }) == Ok::<Args, Fault>(
        Args { json: true, ..a },
    ));
}

proof fn lemma_two_more(
    args: Seq<Seq<char>>,
    positive: Seq<bool>,
    a: Args,
    o: Seq<char>,
    t: Seq<char>,
    p: bool,
    q: bool,
)
    requires
        positive.len() == args.len(),
        o != "--json"@,
        parsed(args, positive, 0, default_args()) == Ok::<Args, Fault>(a),
    ensures
        parsed(args.push(o).push(t), positive.push(p).push(q), 0, default_args()) == if o
            == "--reps"@ {
            if count_of(t) is Some && 1 <= count_of(t)->0 <= 64 {
                Ok::<Args, Fault>(Args { reps: count_of(t)->0 as usize, ..a })
            } else {
                Err(Fault::Usage)
            }
        } else if o == "--scale"@ {
            if q {
                Ok::<Args, Fault>(Args { scale: Some((args.len() + 1) as usize), ..a })
            } else {
                Err(Fault::Usage)
            }
        } else if o == "--only"@ {
            match selected(t, 0) {
                Ok(mask) => Ok::<Args, Fault>(Args { only: mask, ..a }),
                Err(name) => Err(Fault::UnknownWorkload(name)),
            }
        } else {
            Err(Fault::Usage)
        },
{
    let n: int = args.len() as int;
    let more = args.push(o).push(t);
    let also = positive.push(p).push(q);
    assert(more.take(n) =~= args);
    assert(also.take(n) =~= positive);
    lemma_read_on(args, positive, 0, default_args(), more, also);
    assert(more[n] == o && more[n + 1] == t && also[n + 1] == q);
    if o == "--reps"@ {
        if count_of(t) is Some {
            lemma_value_nonnegative(unsigned(t));
        }
        if count_of(t) is Some && 1 <= count_of(t)->0 <= 64 {
            let b = Args { reps: count_of(t)->0 as usize, ..a };
            assert(parsed(more, also, n + 2, b) == Ok::<Args, Fault>(b));
        }
    } else if o == "--scale"@ {
        let b = Args { scale: Some((n + 1) as usize), ..a };
        assert(parsed(more, also, n + 2, b) == Ok::<Args, Fault>(b));
    } else if o == "--only"@ {
        if selected(t, 0) is Ok {
            let b = Args { only: selected(t, 0)->Ok_0, ..a };
            assert(parsed(more, also, n + 2, b) == Ok::<Args, Fault>(b));
        }
    }
}

/// Arguments in order are read alike whatever follows.
proof fn lemma_read_on(
    args: Seq<Seq<char>>,
    positive: Seq<bool>,
    i: int,
    a: Args,
    more: Seq<Seq<char>>,
    also: Seq<bool>,
)
    requires
        0 <= i <= args.len(),
        positive.len() == args.len(),
        more.len() >= args.len(),
        also.len() == more.len(),
        more.take(args.len() as int) =~= args,
        also.take(args.len() as int) =~= positive,
        parsed(args, positive, i, a) is Ok,
    ensures
        parsed(more, also, i, a) == parsed(
            more,
            also,
            args.len() as int,
            parsed(args, positive, i, a)->Ok_0,
        ),
    decreases args.len() - i,
{
    let n: int = args.len() as int;
    if i < n {
        assert(more.take(n)[i] == more[i]);
        if args[i] == "--json"@ {
            lemma_read_on(args, positive, i + 1, Args { json: true, ..a }, more, also);
        } else {
            assert(more.take(n)[i + 1] == more[i + 1]);
            assert(also.take(n)[i + 1] == also[i + 1]);
            if args[i] == "--reps"@ {
                let v: int = count_of(args[i + 1])->0;
                lemma_read_on(args, positive, i + 2, Args { reps: v as usize, ..a }, more, also);
            } else if args[i] == "--scale"@ {
                let s = Args { scale: Some((i + 1) as usize), ..a };
                lemma_read_on(args, positive, i + 2, s, more, also);
            } else {
                let m: u32 = selected(args[i + 1], 0)->Ok_0;
                lemma_read_on(args, positive, i + 2, Args { only: m, ..a }, more, also);
            }
        }
    }
}

} // verus!
