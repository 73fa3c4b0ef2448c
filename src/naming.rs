//! Destination names built from capture timestamps, with collision suffixes.
use vstd::prelude::*;
use vstd::relations::injective_on;
use vstd::set_lib::{lemma_int_range, lemma_len_subset, lemma_map_size, set_int_range};
use vstd::string::{StrSliceExecFns, StringExecFns};

verus! {

/// The character that stands for `c` in a file name: `:` becomes `-`, a space `_`.
pub open spec fn name_char(c: char) -> char {
    if c == ':' {
        '-'
    } else if c == ' ' {
        '_'
    } else {
        c
    }
}

/// The timestamp with every `:` replaced by `-` and every space by `_`.
pub open spec fn base_name(ts: Seq<char>) -> Seq<char> {
    ts.map_values(|c: char| name_char(c))
}

pub open spec fn digit_char(d: nat) -> char {
    seq!['0', '1', '2', '3', '4', '5', '6', '7', '8', '9'][d as int]
}

/// Decimal digits of `n`, most significant first, without leading zeros.
pub open spec fn decimal(n: nat) -> Seq<char>
    decreases n,
{
    if n < 10 {
        seq![digit_char(n)]
    } else {
        decimal(n / 10).push(digit_char(n % 10))
    }
}

pub open spec fn jpg_suffix() -> Seq<char> {
    seq!['.', 'j', 'p', 'g']
}

/// The name tried at step `counter`: `<base>.jpg` first, then `<base>_<counter>.jpg`.
pub open spec fn candidate_name(base: Seq<char>, counter: nat) -> Seq<char> {
    if counter == 0 {
        base + jpg_suffix()
    } else {
        base + seq!['_'] + decimal(counter) + jpg_suffix()
    }
}

/// `name` is the first candidate for `base` that `taken` does not hold.
pub open spec fn is_first_free(base: Seq<char>, taken: Set<Seq<char>>, name: Seq<char>) -> bool {
    exists|c: nat|
        #![trigger candidate_name(base, c)]
        name == candidate_name(base, c) && !taken.contains(name) && forall|j: nat|
            j < c ==> taken.contains(#[trigger] candidate_name(base, j))
}

/// The name that the namer assigns to timestamp `ts` when `taken` is in use.
pub open spec fn assigned_name(ts: Seq<char>, taken: Set<Seq<char>>) -> Seq<char> {
    choose|name: Seq<char>| is_first_free(base_name(ts), taken, name)
}

/// The set of names held by a list of strings.
pub open spec fn names_of(v: Seq<String>) -> Set<Seq<char>> {
    v.map_values(|s: String| s@).to_set()
}

spec fn digit_value(c: char) -> nat {
    if c == '1' {
        1
    } else if c == '2' {
        2
    } else if c == '3' {
        3
    } else if c == '4' {
        4
    } else if c == '5' {
        5
    } else if c == '6' {
        6
    } else if c == '7' {
        7
    } else if c == '8' {
        8
    } else if c == '9' {
        9
    } else {
        0
    }
}

spec fn parse_decimal(s: Seq<char>) -> nat
    decreases s.len(),
{
    if s.len() == 0 {
        0
    } else {
        parse_decimal(s.drop_last()) * 10 + digit_value(s.last())
    }
}

proof fn lemma_decimal_parses(n: nat)
    ensures
        parse_decimal(decimal(n)) == n,
        decimal(n).len() >= 1,
    decreases n,
{
    if n < 10 {
        let s = decimal(n);
        assert(s.drop_last() =~= Seq::<char>::empty());
        assert(parse_decimal(Seq::<char>::empty()) == 0);
    } else {
        lemma_decimal_parses(n / 10);
        let s = decimal(n);
        assert(s.drop_last() =~= decimal(n / 10));
        assert((n / 10) * 10 + n % 10 == n) by (nonlinear_arith);
    }
}

/// Different counters give different candidate names.
pub proof fn lemma_candidate_names_distinct(base: Seq<char>, c1: nat, c2: nat)
    requires
        c1 != c2,
    ensures
        candidate_name(base, c1) != candidate_name(base, c2),
{
    lemma_decimal_parses(c1);
    lemma_decimal_parses(c2);
    let n1 = candidate_name(base, c1);
    let n2 = candidate_name(base, c2);
    if n1 == n2 {
        if c1 != 0 && c2 != 0 {
            let d1 = decimal(c1);
            let d2 = decimal(c2);
            assert(n1.len() == base.len() + 1 + d1.len() + 4);
            assert(n2.len() == base.len() + 1 + d2.len() + 4);
            assert(n1.subrange(base.len() as int + 1, base.len() + 1 + d1.len() as int) =~= d1);
            assert(n2.subrange(base.len() as int + 1, base.len() + 1 + d2.len() as int) =~= d2);
            assert(d1 == d2);
        } else if c1 == 0 {
            assert(n1.len() == base.len() + 4);
            assert(n2.len() == base.len() + 1 + decimal(c2).len() + 4);
        } else {
            assert(n2.len() == base.len() + 4);
            assert(n1.len() == base.len() + 1 + decimal(c1).len() + 4);
        }
    }
}

/// Among the first `taken.len() + 1` candidates, at least one is free.
proof fn lemma_free_candidate_exists(base: Seq<char>, taken: Set<Seq<char>>)
    requires
        taken.finite(),
    ensures
        exists|c: nat| c <= taken.len() && !taken.contains(#[trigger] candidate_name(base, c)),
{
    if forall|c: nat| c <= taken.len() ==> taken.contains(#[trigger] candidate_name(base, c)) {
        let k = taken.len() as int;
        let dom = set_int_range(0, k + 1);
        let f = |c: int| candidate_name(base, c as nat);
        lemma_int_range(0, k + 1);
        assert forall|x1: int, x2: int|
            dom.contains(x1) && dom.contains(x2) && #[trigger] f(x1) == #[trigger] f(x2) implies x1
                == x2 by {
            if x1 != x2 {
                lemma_candidate_names_distinct(base, x1 as nat, x2 as nat);
            }
        }
        assert(injective_on(f, dom));
        let img = dom.map(f);
        lemma_map_size(dom, img, f);
        assert forall|s: Seq<char>| img.contains(s) implies taken.contains(s) by {
            let c = choose|c: int| dom.contains(c) && f(c) == s;
            assert(taken.contains(candidate_name(base, c as nat)));
        }
        lemma_len_subset(img, taken);
    }
}

/// Naming is deterministic: for one base name and one set of names in use
/// (claimed in this run or present in the destination directory), at most
/// one name is the first free candidate, so running the namer again on the
/// same inputs yields the same name.
pub proof fn lemma_naming_deterministic(
    base: Seq<char>,
    taken: Set<Seq<char>>,
    a: Seq<char>,
    b: Seq<char>,
)
    requires
        is_first_free(base, taken, a),
        is_first_free(base, taken, b),
    ensures
        a == b,
{
    let ca = choose|c: nat|
        #![trigger candidate_name(base, c)]
        a == candidate_name(base, c) && !taken.contains(a) && forall|j: nat|
            j < c ==> taken.contains(#[trigger] candidate_name(base, j));
    let cb = choose|c: nat|
        #![trigger candidate_name(base, c)]
        b == candidate_name(base, c) && !taken.contains(b) && forall|j: nat|
            j < c ==> taken.contains(#[trigger] candidate_name(base, j));
    if ca < cb {
        assert(taken.contains(candidate_name(base, ca)));
    } else if cb < ca {
        assert(taken.contains(candidate_name(base, cb)));
    }
}

/// Over a finite set of names in use, the assigned name exists, is free,
/// and is the first free candidate.
pub proof fn lemma_assigned_name_free(ts: Seq<char>, taken: Set<Seq<char>>)
    requires
        taken.finite(),
    ensures
        is_first_free(base_name(ts), taken, assigned_name(ts, taken)),
        !taken.contains(assigned_name(ts, taken)),
{
    let base = base_name(ts);
    lemma_free_candidate_exists(base, taken);
    let c0 = choose|c: nat| c <= taken.len() && !taken.contains(#[trigger] candidate_name(base, c));
    let c = least_free(base, taken, c0);
    assert(is_first_free(base, taken, candidate_name(base, c)));
}

/// The least counter not above `bound` whose candidate is free.
proof fn least_free(base: Seq<char>, taken: Set<Seq<char>>, bound: nat) -> (c: nat)
    requires
        !taken.contains(candidate_name(base, bound)),
    ensures
        c <= bound,
        !taken.contains(candidate_name(base, c)),
        forall|j: nat| j < c ==> taken.contains(#[trigger] candidate_name(base, j)),
    decreases bound,
{
    if forall|j: nat| j < bound ==> taken.contains(#[trigger] candidate_name(base, j)) {
        bound
    } else {
        let j = choose|j: nat| j < bound && !taken.contains(#[trigger] candidate_name(base, j));
        least_free(base, taken, j)
    }
}

/// Builds the base name of a timestamp: `:` becomes `-`, a space becomes `_`.
pub fn timestamp_base_name(ts: &str) -> (r: String)
    ensures
        r@ == base_name(ts@),
{
    let n = ts.unicode_len();
    let mut out = String::new();
    let mut i: usize = 0;
    while i < n
        invariant
            n == ts@.len(),
            i <= n,
            out@ == base_name(ts@.subrange(0, i as int)),
        decreases n - i,
    {
        let c = ts.get_char(i);
        proof {
            reveal_strlit("-");
            reveal_strlit("_");
        }
        if c == ':' {
            out.append("-");
        } else if c == ' ' {
            out.append("_");
        } else {
            out.append(ts.substring_char(i, i + 1));
        }
        assert(base_name(ts@.subrange(0, i + 1)) =~= base_name(ts@.subrange(0, i as int)).push(
            name_char(c),
        ));
        i = i + 1;
    }
    assert(ts@.subrange(0, n as int) =~= ts@);
    out
}

fn digit_text(d: u64) -> (r: &'static str)
    requires
        d < 10,
    ensures
        r@ == seq![digit_char(d as nat)],
{
    proof {
        reveal_strlit("0");
        reveal_strlit("1");
        reveal_strlit("2");
        reveal_strlit("3");
        reveal_strlit("4");
        reveal_strlit("5");
        reveal_strlit("6");
        reveal_strlit("7");
        reveal_strlit("8");
        reveal_strlit("9");
    }
    if d == 0 {
        "0"
    } else if d == 1 {
        "1"
    } else if d == 2 {
        "2"
    } else if d == 3 {
        "3"
    } else if d == 4 {
        "4"
    } else if d == 5 {
        "5"
    } else if d == 6 {
        "6"
    } else if d == 7 {
        "7"
    } else if d == 8 {
        "8"
    } else {
        "9"
    }
}

/// Appends the decimal digits of `n` to `out`.
pub fn push_decimal(out: &mut String, n: u64)
    ensures
        final(out)@ == old(out)@ + decimal(n as nat),
    decreases n,
{
    if n >= 10 {
        push_decimal(out, n / 10);
    }
    out.append(digit_text(n % 10));
    assert(old(out)@ + decimal(n as nat) =~= final(out)@) by {
        if n >= 10 {
            assert(decimal(n as nat) == decimal((n / 10) as nat).push(digit_char((n % 10) as nat)));
        }
    }
}

/// The name tried at step `counter` for base name `base`.
pub fn make_candidate_name(base: &String, counter: u64) -> (r: String)
    ensures
        r@ == candidate_name(base@, counter as nat),
{
    let mut out = base.clone();
    proof {
        reveal_strlit("_");
        reveal_strlit(".jpg");
    }
    if counter != 0 {
        out.append("_");
        push_decimal(&mut out, counter);
    }
    out.append(".jpg");
    assert(out@ =~= candidate_name(base@, counter as nat));
    out
}

/// Whether one of `names` equals `name`.
pub fn holds_name(names: &Vec<String>, name: &String) -> (r: bool)
    ensures
        r == names_of(names@).contains(name@),
{
    let mut i: usize = 0;
    while i < names.len()
        invariant
            i <= names@.len(),
            forall|k: int| 0 <= k < i ==> names@[k]@ != name@,
        decreases names@.len() - i,
    {
        if names[i] == *name {
            assert(names@.map_values(|s: String| s@)[i as int] == name@);
            return true;
        }
        i = i + 1;
    }
    let ghost m = names@.map_values(|s: String| s@);
    assert forall|k: int| 0 <= k < m.len() implies #[trigger] m[k] != name@ by {}
    false
}

/// The names claimed so far in one planning pass.
pub struct ClaimedNames {
    names: Vec<String>,
}

impl View for ClaimedNames {
    type V = Set<Seq<char>>;

    closed spec fn view(&self) -> Set<Seq<char>> {
        names_of(self.names@)
    }
}

impl ClaimedNames {
    pub closed spec fn count(&self) -> nat {
        self.names@.len()
    }

    pub fn new() -> (r: ClaimedNames)
        ensures
            r@ == Set::<Seq<char>>::empty(),
            r.count() == 0,
    {
        let r = ClaimedNames { names: Vec::new() };
        assert(r@ =~= Set::<Seq<char>>::empty());
        r
    }

    /// Number of names claimed.
    pub fn len(&self) -> (r: usize)
        ensures
            r == self.count(),
    {
        self.names.len()
    }

    /// Whether `name` has been claimed.
    pub fn contains(&self, name: &String) -> (r: bool)
        ensures
            r == self@.contains(name@),
    {
        holds_name(&self.names, name)
    }
}

/// Assigns a destination name to timestamp `ts` and claims it.
///
/// The name is the first of `<base>.jpg`, `<base>_1.jpg`, `<base>_2.jpg`, ...
/// that is neither claimed already nor among the `existing` entries of the
/// destination directory, where `<base>` is `ts` with `:` turned to `-` and
/// spaces to `_`.
pub fn assign(ts: &str, claimed: &mut ClaimedNames, existing: &Vec<String>) -> (r: String)
    requires
        old(claimed).count() + existing@.len() < usize::MAX,
    ensures
        r@ == assigned_name(ts@, old(claimed)@ + names_of(existing@)),
        is_first_free(base_name(ts@), old(claimed)@ + names_of(existing@), r@),
        !old(claimed)@.contains(r@),
        !names_of(existing@).contains(r@),
        final(claimed)@ == old(claimed)@.insert(r@),
        final(claimed).count() == old(claimed).count() + 1,
{
    let ghost taken = claimed@ + names_of(existing@);
    let ghost base_v = base_name(ts@);
    let ghost k: nat = claimed.count() + existing@.len();
    proof {
        claimed.names@.map_values(|s: String| s@).lemma_cardinality_of_set();
        existing@.map_values(|s: String| s@).lemma_cardinality_of_set();
        vstd::set_lib::lemma_len_union(claimed@, names_of(existing@));
        lemma_free_candidate_exists(base_v, taken);
    }
    let base = timestamp_base_name(ts);
    let mut counter: usize = 0;
    loop
        invariant
            base@ == base_v,
            base_v == base_name(ts@),
            taken == claimed@ + names_of(existing@),
            taken.finite(),
            taken.len() <= k,
            k == claimed.count() + existing@.len(),
            k < usize::MAX,
            counter <= k,
            claimed@ == old(claimed)@,
            claimed.count() == old(claimed).count(),
            exists|c: nat| c <= taken.len() && !taken.contains(#[trigger] candidate_name(base_v, c)),
            forall|j: nat| j < counter ==> taken.contains(#[trigger] candidate_name(base_v, j)),
        decreases k - counter,
    {
        let name = make_candidate_name(&base, counter as u64);
        if !claimed.contains(&name) && !holds_name(existing, &name) {
            proof {
                assert(is_first_free(base_v, taken, name@));
                lemma_assigned_name_free(ts@, taken);
                lemma_naming_deterministic(base_v, taken, name@, assigned_name(ts@, taken));
            }
            let ghost before = claimed.names@;
            claimed.names.push(name.clone());
            proof {
                let m_old = before.map_values(|s: String| s@);
                assert(claimed.names@.map_values(|s: String| s@) =~= m_old + seq![name@]);
                Seq::lemma_to_set_insert_commutes(m_old, name@);
                assert(claimed@ =~= old(claimed)@.insert(name@));
            }
            return name;
        }
        proof {
            if counter == k {
                let c = choose|c: nat|
                    c <= taken.len() && !taken.contains(#[trigger] candidate_name(base_v, c));
                assert(c < counter || c == counter);
            }
        }
        counter = counter + 1;
    }
}

} // verus!
