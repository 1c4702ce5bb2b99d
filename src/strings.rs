use vstd::prelude::*;

verus! {

/// A rewrite rule: the first occurrence of `from` becomes `to`.
pub struct Rule {
    from: String,
    to: String,
}

impl View for Rule {
    type V = (Seq<char>, Seq<char>);

    closed spec fn view(&self) -> (Seq<char>, Seq<char>) {
        (self.from@, self.to@)
    }
}

pub fn rule(from: &str, to: &str) -> (r: Rule)
    ensures
        r@ == (from@, to@),
{
    Rule { from: String::from_str(from), to: String::from_str(to) }
}

/// The first index at or after `i` where `pat` occurs in `s`.
pub open spec fn find_from(s: Seq<char>, pat: Seq<char>, i: int) -> Option<int>
    decreases s.len() + 1 - i,
{
    if i < 0 || i + pat.len() > s.len() {
        None
    } else if s.subrange(i, i + pat.len()) == pat {
        Some(i)
    } else {
        find_from(s, pat, i + 1)
    }
}

proof fn lemma_find_from_found(s: Seq<char>, pat: Seq<char>, j: int, i: int)
    requires
        find_from(s, pat, j) == Some(i),
    ensures
        0 <= j <= i,
        i + pat.len() <= s.len(),
        s.subrange(i, i + pat.len()) == pat,
    decreases s.len() + 1 - j,
{
    if j >= 0 && j + pat.len() <= s.len() && s.subrange(j, j + pat.len()) != pat {
        lemma_find_from_found(s, pat, j + 1, i);
    }
}

/// `s` with its occurrence of `from` at `i` replaced by `to`.
pub open spec fn replace_at(s: Seq<char>, from: Seq<char>, to: Seq<char>, i: int) -> Seq<char> {
    s.subrange(0, i) + to + s.subrange(i + from.len(), s.len() as int)
}

/// One rewrite by the first of `rules[k..]` whose left side occurs in `s`,
/// at its first occurrence; `None` when none occurs.
pub open spec fn apply_first(rules: Seq<(Seq<char>, Seq<char>)>, s: Seq<char>, k: int) -> Option<
    Seq<char>,
>
    decreases rules.len() - k,
{
    if k < 0 || k >= rules.len() {
        None
    } else {
        match find_from(s, rules[k].0, 0) {
            Some(i) => Some(replace_at(s, rules[k].0, rules[k].1, i)),
            None => apply_first(rules, s, k + 1),
        }
    }
}

/// The string that rewriting `s` reaches once no rule applies, if that takes
/// at most `fuel` rewrites.
pub open spec fn normal_form(rules: Seq<(Seq<char>, Seq<char>)>, s: Seq<char>, fuel: nat) -> Option<
    Seq<char>,
>
    decreases fuel,
{
    match apply_first(rules, s, 0) {
        None => Some(s),
        Some(t) => if fuel == 0 {
            None
        } else {
            normal_form(rules, t, (fuel - 1) as nat)
        },
    }
}

pub open spec fn rules_view(rules: Seq<Rule>) -> Seq<(Seq<char>, Seq<char>)> {
    rules.map_values(|r: Rule| r@)
}

fn occurs_at(s: &str, pat: &str, i: usize, m: usize) -> (r: bool)
    requires
        m == pat@.len(),
        i + m <= s@.len(),
        s@.len() <= usize::MAX,
    ensures
        r == (s@.subrange(i as int, i + m) == pat@),
{
    let mut j: usize = 0;
    while j < m
        invariant
            m == pat@.len(),
            i + m <= s@.len(),
            s@.len() <= usize::MAX,
            j <= m,
            forall|k: int| 0 <= k < j ==> s@[i + k] == pat@[k],
        decreases m - j,
    {
        if s.get_char(i + j) != pat.get_char(j) {
            assert(s@.subrange(i as int, i + m)[j as int] != pat@[j as int]);
            return false;
        }
        j += 1;
    }
    assert(s@.subrange(i as int, i + m) =~= pat@);
    true
}

fn find_first(s: &str, pat: &str) -> (r: Option<usize>)
    ensures
        match r {
            Some(i) => find_from(s@, pat@, 0) == Some(i as int),
            None => find_from(s@, pat@, 0) is None,
        },
{
    let n = s.unicode_len();
    let m = pat.unicode_len();
    if m > n {
        return None;
    }
    let last: usize = n - m;
    let mut i: usize = 0;
    loop
        invariant
            n == s@.len(),
            m == pat@.len(),
            last == n - m,
            i <= last,
            find_from(s@, pat@, 0) == find_from(s@, pat@, i as int),
        decreases last - i,
    {
        if occurs_at(s, pat, i, m) {
            return Some(i);
        }
        if i == last {
            return None;
        }
        i += 1;
    }
}

fn rewrite_once(rules: &[Rule], s: &str) -> (r: Option<String>)
    ensures
        match r {
            Some(t) => apply_first(rules_view(rules@), s@, 0) == Some(t@),
            None => apply_first(rules_view(rules@), s@, 0) is None,
        },
{
    let ghost rv = rules_view(rules@);
    let mut k: usize = 0;
    while k < rules.len()
        invariant
            rv == rules_view(rules@),
            rv.len() == rules@.len(),
            k <= rules@.len(),
            apply_first(rv, s@, 0) == apply_first(rv, s@, k as int),
        decreases rules@.len() - k,
    {
        let r = &rules[k];
        assert(rv[k as int] == r@);
        match find_first(s, r.from.as_str()) {
            Some(i) => {
                proof {
                    lemma_find_from_found(s@, r@.0, 0, i as int);
                }
                let n = s.unicode_len();
                let m = r.from.as_str().unicode_len();
                let mut out = String::from_str(s.substring_char(0, i));
                out.append(r.to.as_str());
                out.append(s.substring_char(i + m, n));
                return Some(out);
            },
            None => {},
        }
        k += 1;
    }
    None
}

/// Rewrites `seed` until no rule applies: each round the first rule, in
/// order, whose left side occurs replaces that side's first occurrence.
/// Returns the final string, or `None` when more than `max_steps` rewrites
/// would be needed.
pub fn run(rules: &[Rule], seed: &str, max_steps: usize) -> (r: Option<String>)
    ensures
        match r {
            Some(v) => normal_form(rules_view(rules@), seed@, max_steps as nat) == Some(v@),
            None => normal_form(rules_view(rules@), seed@, max_steps as nat) is None,
        },
{
    let ghost rv = rules_view(rules@);
    let mut value = String::from_str(seed);
    let mut fuel: usize = max_steps;
    loop
        invariant
            rv == rules_view(rules@),
            normal_form(rv, seed@, max_steps as nat) == normal_form(rv, value@, fuel as nat),
        decreases fuel,
    {
        match rewrite_once(rules, value.as_str()) {
            None => {
                return Some(value);
            },
            Some(t) => {
                if fuel == 0 {
                    return None;
                }
                value = t;
                fuel -= 1;
            },
        }
    }
}

} // verus!
