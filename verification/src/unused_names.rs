//! Renaming an unused binding so that an ignore pattern covers it.

use lazy_regex::Regex;
use vstd::prelude::*;
use vstd::seq_lib::*;
use vstd::string::*;

verus! {

/// `lazy_regex::Regex`, a compiled regular expression.
#[verifier::external_type_specification]
#[verifier::external_body]
pub struct ExRegex(Regex);

/// The text that a regular expression was compiled from: `Regex::as_str`.
pub uninterp spec fn regex_source(re: Regex) -> Seq<char>;

/// `Regex::as_str`: the text that the regular expression was compiled from.
#[verifier::external_body]
fn source_of(re: &Regex) -> (text: &str)
    ensures
        text@ == regex_source(*re),
{
    re.as_str()
}

/// Which names count as unused on purpose.
#[derive(Debug)]
pub enum IgnorePattern<R> {
    /// Those that begin with `_`.
    Default,
    /// None.
    Nothing,
    /// Those that match.
    Matching(R),
}

/// A binding, and the names bound in its scope.
#[derive(Debug)]
pub struct Symbol {
    pub name: String,
    pub scope_bindings: Vec<String>,
}

/// The names that a list holds.
pub open spec fn names(list: Seq<String>) -> Seq<Seq<char>> {
    Seq::new(list.len(), |i: int| list[i]@)
}

/// Each name is taken as it is.
pub proof fn law_names_are_all(list: Seq<String>)
    ensures
        names(list).len() == list.len(),
        forall|i: int| 0 <= i < list.len() ==> #[trigger] names(list)[i] == list[i]@,
{
}

/// The decimal digit of a number below ten.
pub open spec fn digit(d: int) -> char {
    if d == 0 {
        '0'
    } else if d == 1 {
        '1'
    } else if d == 2 {
        '2'
    } else if d == 3 {
        '3'
    } else if d == 4 {
        '4'
    } else if d == 5 {
        '5'
    } else if d == 6 {
        '6'
    } else if d == 7 {
        '7'
    } else if d == 8 {
        '8'
    } else {
        '9'
    }
}

/// A number in decimal.
pub open spec fn decimal(n: nat) -> Seq<char>
    decreases n,
{
    if n < 10 {
        seq![digit(n as int)]
    } else {
        decimal(n / 10).push(digit((n % 10) as int))
    }
}

/// The names to try, in order: `base`, then `base` with `0`, `1`, `2` and so on behind it.
pub open spec fn candidate(base: Seq<char>, k: nat) -> Seq<char> {
    if k == 0 {
        base
    } else {
        base + decimal((k - 1) as nat)
    }
}

/// Whether `name` is the first candidate that is not taken.
pub open spec fn is_first_free(base: Seq<char>, taken: Seq<Seq<char>>, name: Seq<char>) -> bool {
    exists|k: nat| #[trigger] is_free_at(base, taken, name, k)
}

/// Whether `name` is the `k`-th candidate, and all candidates before it are taken, but it is
/// not.
pub open spec fn is_free_at(
    base: Seq<char>,
    taken: Seq<Seq<char>>,
    name: Seq<char>,
    k: nat,
) -> bool {
    &&& name == candidate(base, k)
    &&& !taken.contains(name)
    &&& forall|j: nat| j < k ==> taken.contains(#[trigger] candidate(base, j))
}

/// Whether a pattern with this source covers every name that begins with `_`, as far as that
/// is known.
pub open spec fn covers_underscore(source: Seq<char>) -> bool {
    source == "^_"@
}

proof fn lemma_decimal(n: nat)
    ensures
        decimal(n).len() >= 1,
    decreases n,
{
    if n >= 10 {
        lemma_decimal(n / 10);
    }
}

proof fn lemma_digit(a: int, b: int)
    requires
        0 <= a < 10,
        0 <= b < 10,
        digit(a) == digit(b),
    ensures
        a == b,
{
}

/// Different numbers differ in decimal.
proof fn lemma_decimal_injective(a: nat, b: nat)
    requires
        decimal(a) == decimal(b),
    ensures
        a == b,
    decreases a,
{
    lemma_decimal(a / 10);
    lemma_decimal(b / 10);
    assert(decimal(a).last() == digit((a % 10) as int));
    assert(decimal(b).last() == digit((b % 10) as int));
    lemma_digit((a % 10) as int, (b % 10) as int);
    if a < 10 {
        assert(decimal(a).len() == 1);
    } else {
        assert(decimal(b).len() > 1);
        assert(decimal(a).drop_last() =~= decimal(a / 10));
        assert(decimal(b).drop_last() =~= decimal(b / 10));
        lemma_decimal_injective(a / 10, b / 10);
    }
}

/// No two candidates are the same.
proof fn lemma_candidates_differ(base: Seq<char>, j: nat, k: nat)
    requires
        j < k,
    ensures
        candidate(base, j) != candidate(base, k),
{
    lemma_decimal((k - 1) as nat);
    if j == 0 {
        assert(candidate(base, k).len() > base.len());
    } else if candidate(base, j) == candidate(base, k) {
        let a: nat = (j - 1) as nat;
        let b: nat = (k - 1) as nat;
        assert((base + decimal(a)).skip(base.len() as int) =~= decimal(a));
        assert((base + decimal(b)).skip(base.len() as int) =~= decimal(b));
        lemma_decimal_injective(a, b);
    }
}

/// As many candidates as are all taken, so many names are taken.
proof fn lemma_taken_candidates(base: Seq<char>, taken: Seq<Seq<char>>, k: nat)
    requires
        forall|j: nat| j < k ==> taken.contains(#[trigger] candidate(base, j)),
    ensures
        k <= taken.len(),
{
    let tried = Seq::new(k, |j: int| candidate(base, j as nat));
    assert(tried.no_duplicates()) by {
        assert forall|i: int, j: int| 0 <= i < tried.len() && 0 <= j < tried.len() && i
            != j implies tried[i] != tried[j] by {
            if i < j {
                lemma_candidates_differ(base, i as nat, j as nat);
            } else {
                lemma_candidates_differ(base, j as nat, i as nat);
            }
        }
    }
    assert(tried.to_set().subset_of(taken.to_set())) by {
        assert forall|name: Seq<char>| tried.to_set().contains(name) implies taken.to_set().contains(
            name,
        ) by {
            let j: int = choose|j: int| 0 <= j < tried.len() && tried[j] == name;
            assert(taken.contains(candidate(base, j as nat)));
        }
    }
    tried.unique_seq_to_set();
    taken.lemma_cardinality_of_set();
    seq_to_set_is_finite(taken);
    vstd::set_lib::lemma_len_subset(tried.to_set(), taken.to_set());
}

fn digit_text(d: usize) -> (text: &'static str)
    requires
        d < 10,
    ensures
        text@ == seq![digit(d as int)],
{
    proof {
        reveal_strlit("0");
        reveal_strlit("1");
        reveal_strlit("2");
        reveal_strlit("3");
        reveal_strlit("4");
        reveal_strlit("5");
        reveal_strlit("6");
        reveal_strlit("7");
        reveal_strlit("8");
        reveal_strlit("9");
    }
    let text: &'static str = match d {
        0 => "0",
        1 => "1",
        2 => "2",
        3 => "3",
        4 => "4",
        5 => "5",
        6 => "6",
        7 => "7",
        8 => "8",
        _ => "9",
    };
    assert(text@ =~= seq![digit(d as int)]);
    text
}

/// Appends a number in decimal.
fn append_decimal(text: &mut String, n: usize)
    ensures
        final(text)@ == old(text)@ + decimal(n as nat),
    decreases n,
{
    if n >= 10 {
        append_decimal(text, n / 10);
    }
    text.append(digit_text(n % 10));
    assert(text@ =~= old(text)@ + decimal(n as nat));
}

fn is_bound(bindings: &Vec<String>, name: &String) -> (bound: bool)
    ensures
        bound == names(bindings@).contains(name@),
{
    let mut i: usize = 0;
    while i < bindings.len()
        invariant
            i <= bindings@.len(),
            forall|j: int| 0 <= j < i ==> names(bindings@)[j] != name@,
        decreases bindings@.len() - i,
    {
        if bindings[i] == *name {
            assert(names(bindings@)[i as int] == name@);
            return true;
        }
        i = i + 1;
    }
    false
}

/// A name for the binding that begins with `_` and that nothing in its scope has: `_` and the
/// old name, with the first number behind it that makes it free where that is needed.
pub fn free_underscore_name(symbol: &Symbol) -> (name: String)
    ensures
        is_first_free("_"@ + symbol.name@, names(symbol.scope_bindings@), name@),
{
    let mut base: String = "_".to_owned();
    base.append(symbol.name.as_str());
    let ghost taken = names(symbol.scope_bindings@);
    let mut name: String = base.clone();
    let mut k: usize = 0;
    while is_bound(&symbol.scope_bindings, &name)
        invariant
            taken == names(symbol.scope_bindings@),
            base@ == "_"@ + symbol.name@,
            name@ == candidate(base@, k as nat),
            forall|j: nat| j < k ==> taken.contains(#[trigger] candidate(base@, j)),
            k <= symbol.scope_bindings@.len(),
        decreases symbol.scope_bindings@.len() - k,
    {
        proof {
            assert forall|j: nat| j < k + 1 implies taken.contains(#[trigger] candidate(base@, j)) by {
                if j == k {
                    assert(taken.contains(name@));
                }
            }
            lemma_taken_candidates(base@, taken, (k + 1) as nat);
            assert(taken.len() == symbol.scope_bindings.len());
        }
        name = base.clone();
        append_decimal(&mut name, k);
        k = k + 1;
    }
    assert(is_free_at(base@, taken, name@, k as nat));
    name
}

/// The new name of an unused binding under an ignore pattern, given as the source of the
/// pattern: there is one for the default pattern and for `^_`.
pub fn unused_name_under(symbol: &Symbol, ignore_pattern: &IgnorePattern<String>) -> (name: Option<
    String,
>)
    ensures
        match name {
            Some(n) => {
                &&& match ignore_pattern {
                    IgnorePattern::Default => true,
                    IgnorePattern::Nothing => false,
                    IgnorePattern::Matching(source) => covers_underscore(source@),
                }
                &&& is_first_free("_"@ + symbol.name@, names(symbol.scope_bindings@), n@)
            },
            None => match ignore_pattern {
                IgnorePattern::Default => false,
                IgnorePattern::Nothing => true,
                IgnorePattern::Matching(source) => !covers_underscore(source@),
            },
        },
{
    match ignore_pattern {
        IgnorePattern::Default => Some(free_underscore_name(symbol)),
        IgnorePattern::Matching(source) if *source == "^_".to_owned() => Some(
            free_underscore_name(symbol),
        ),
        _ => None,
    }
}

/// The ignore patterns of the rule on unused bindings.
#[derive(Debug)]
pub struct NoUnusedVars {
    pub args_ignore_pattern: IgnorePattern<Regex>,
    pub vars_ignore_pattern: IgnorePattern<Regex>,
}

/// Whether a new name can be made up under an ignore pattern.
pub open spec fn can_rename(ignore_pattern: IgnorePattern<Regex>) -> bool {
    match ignore_pattern {
        IgnorePattern::Default => true,
        IgnorePattern::Nothing => false,
        IgnorePattern::Matching(re) => covers_underscore(regex_source(re)),
    }
}

impl NoUnusedVars {
    /// The new name of an unused argument.
    pub fn get_unused_arg_name(&self, symbol: &Symbol) -> (name: Option<String>)
        ensures
            name is Some <==> can_rename(self.args_ignore_pattern),
            name matches Some(n) ==> is_first_free(
                "_"@ + symbol.name@,
                names(symbol.scope_bindings@),
                n@,
            ),
    {
        Self::get_unused_name(symbol, &self.args_ignore_pattern)
    }

    /// The new name of an unused variable.
    pub fn get_unused_var_name(&self, symbol: &Symbol) -> (name: Option<String>)
        ensures
            name is Some <==> can_rename(self.vars_ignore_pattern),
            name matches Some(n) ==> is_first_free(
                "_"@ + symbol.name@,
                names(symbol.scope_bindings@),
                n@,
            ),
    {
        Self::get_unused_name(symbol, &self.vars_ignore_pattern)
    }

    /// A name that satisfies the ignore pattern and that nothing else in the scope has; none
    /// for a pattern under which no name can be made up.
    pub fn get_unused_name(symbol: &Symbol, ignore_pattern: &IgnorePattern<Regex>) -> (name: Option<
        String,
    >)
        ensures
            name is Some <==> can_rename(*ignore_pattern),
            name matches Some(n) ==> is_first_free(
                "_"@ + symbol.name@,
                names(symbol.scope_bindings@),
                n@,
            ),
    {
        let pattern: IgnorePattern<String> = match ignore_pattern {
            IgnorePattern::Default => IgnorePattern::Default,
            IgnorePattern::Nothing => IgnorePattern::Nothing,
            IgnorePattern::Matching(re) => IgnorePattern::Matching(source_of(re).to_owned()),
        };
        unused_name_under(symbol, &pattern)
    }
}

/// The number that some decimal digits stand for.
pub open spec fn value_of(digits: Seq<char>) -> int
    decreases digits.len(),
{
    if digits.len() == 0 {
        0
    } else {
        10 * value_of(digits.drop_last()) + (digits.last() as int - 48)
    }
}

/// A number in decimal reads as that number: it is made of digits, at least one, and has no `0` in
/// front unless it is `0`.
pub proof fn law_decimal_reads_as_its_number(n: nat)
    ensures
        value_of(decimal(n)) == n,
        decimal(n).len() >= 1,
        forall|i: int| 0 <= i < decimal(n).len() ==> 48 <= #[trigger] decimal(n)[i] as int <= 57,
        decimal(n).len() > 1 ==> decimal(n)[0] as int != 48,
    decreases n,
{
    assert(forall|d: int| 0 <= d < 10 ==> #[trigger] digit(d) as int == 48 + d);
    if n < 10 {
        assert(decimal(n).drop_last() =~= Seq::<char>::empty());
        assert(decimal(n).last() == digit(n as int));
        assert(value_of(Seq::<char>::empty()) == 0);
    } else {
        let front = decimal(n / 10);
        law_decimal_reads_as_its_number(n / 10);
        assert(decimal(n).drop_last() =~= front);
        assert(decimal(n).last() == digit((n % 10) as int));
        assert(decimal(n)[0] == front[0]);
        if front.len() == 1 {
            assert(front.drop_last() =~= Seq::<char>::empty());
            assert(value_of(Seq::<char>::empty()) == 0);
            assert(value_of(front) == front[0] as int - 48);
        }
    }
}

/// The new name is the wanted one where that is free. Otherwise it is the wanted one with a number
/// behind it, the smallest, from zero on, with which it is free.
pub proof fn law_smallest_free_number(base: Seq<char>, taken: Seq<Seq<char>>, name: Seq<char>)
    ensures
        is_first_free(base, taken, name) <==> {
            ||| name == base && !taken.contains(base)
            ||| taken.contains(base) && exists|m: nat|
                name == base + #[trigger] decimal(m) && !taken.contains(name) && forall|j: nat|
                    j < m ==> taken.contains(base + #[trigger] decimal(j))
        },
{
    assert(candidate(base, 0) == base);
    if is_first_free(base, taken, name) {
        let k: nat = choose|k: nat| is_free_at(base, taken, name, k);
        assert(is_free_at(base, taken, name, k));
        if k > 0 {
            let m: nat = (k - 1) as nat;
            assert(taken.contains(candidate(base, 0)));
            assert(name == base + decimal(m));
            assert forall|j: nat| j < m implies taken.contains(base + #[trigger] decimal(j)) by {
                assert(candidate(base, j + 1) == base + decimal(j));
                assert(taken.contains(candidate(base, j + 1)));
            }
        }
    }
    if name == base && !taken.contains(base) {
        assert(is_free_at(base, taken, name, 0));
    }
    if taken.contains(base) && exists|m: nat|
        name == base + #[trigger] decimal(m) && !taken.contains(name) && forall|j: nat|
            j < m ==> taken.contains(base + #[trigger] decimal(j)) {
        let m: nat = choose|m: nat|
            name == base + #[trigger] decimal(m) && !taken.contains(name) && forall|j: nat|
                j < m ==> taken.contains(base + #[trigger] decimal(j));
        let k: nat = m + 1;
        assert(candidate(base, k) == base + decimal(m));
        assert forall|j: nat| j < k implies taken.contains(#[trigger] candidate(base, j)) by {
            if j > 0 {
                assert(taken.contains(base + decimal((j - 1) as nat)));
            }
        }
        assert(is_free_at(base, taken, name, k));
    }
}

/// A new name is made up under the default pattern and under the pattern `^_`, and under no other.
pub proof fn law_which_patterns_allow_a_new_name(pattern: IgnorePattern<Regex>)
    ensures
        can_rename(pattern) <==> match pattern {
            IgnorePattern::Default => true,
            IgnorePattern::Nothing => false,
            IgnorePattern::Matching(re) => regex_source(re) == seq!['^', '_'],
        },
        forall|source: Seq<char>| #[trigger]
            covers_underscore(source) <==> source == seq!['^', '_'],
{
    reveal_strlit("^_");
    assert("^_"@ =~= seq!['^', '_']);
}

/// There is a free name, whatever names are taken.
pub proof fn law_free_name_exists(base: Seq<char>, taken: Seq<Seq<char>>)
    ensures
        exists|name: Seq<char>| is_first_free(base, taken, name),
{
    lemma_free_from(base, taken, 0);
}

proof fn lemma_free_from(base: Seq<char>, taken: Seq<Seq<char>>, k: nat)
    requires
        forall|j: nat| j < k ==> taken.contains(#[trigger] candidate(base, j)),
    ensures
        exists|name: Seq<char>| is_first_free(base, taken, name),
    decreases taken.len() - k,
{
    lemma_taken_candidates(base, taken, k);
    let name = candidate(base, k);
    if taken.contains(name) {
        lemma_taken_candidates(base, taken, k + 1);
        lemma_free_from(base, taken, k + 1);
    } else {
        assert(is_free_at(base, taken, name, k));
        assert(is_first_free(base, taken, name));
    }
}

/// A new name is not taken and begins with the name that was wanted; there is only one, and it
/// is the wanted name itself where that is free.
pub proof fn law_new_name_is_fresh(base: Seq<char>, taken: Seq<Seq<char>>, a: Seq<char>, b: Seq<char>)
    requires
        is_first_free(base, taken, a),
    ensures
        !taken.contains(a),
        base.is_prefix_of(a),
        is_first_free(base, taken, b) ==> a == b,
        !taken.contains(base) ==> a == base,
{
    let k: nat = choose|k: nat| is_free_at(base, taken, a, k);
    assert(is_free_at(base, taken, a, k));
    assert(a.take(base.len() as int) =~= base);
    assert(candidate(base, 0) == base);
    if is_first_free(base, taken, b) {
        let m: nat = choose|m: nat| is_free_at(base, taken, b, m);
        assert(is_free_at(base, taken, b, m));
        if k < m {
            assert(taken.contains(candidate(base, k)));
        } else if m < k {
            assert(taken.contains(candidate(base, m)));
        }
    }
    if k > 0 {
        assert(taken.contains(candidate(base, 0)));
    }
}

/// A free name is found after at most as many taken candidates as there are names in the scope.
pub proof fn law_search_is_bounded(base: Seq<char>, taken: Seq<Seq<char>>, name: Seq<char>, k: nat)
    requires
        is_free_at(base, taken, name, k),
    ensures
        k <= taken.len(),
{
    lemma_taken_candidates(base, taken, k);
}

} // verus!
