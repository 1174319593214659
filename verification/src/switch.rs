//! The active-SDK switch: rewriting the system PATH list so that one SDK's
//! `bin` directory is resolved first.
//!
//! PATH directory entries are compared case-insensitively; a switch removes
//! at most the first existing occurrence of the target directory and puts
//! the target in front. The registry lookup by name is case-sensitive.

use vstd::prelude::*;

use crate::config::{spec_contains_name, JavaverConfig, JavaverError};
use crate::text::{lower_of, lowercase, str_eq};

verus! {

/// Case-insensitive equality of two directory paths.
pub open spec fn ci_eq(a: Seq<char>, b: Seq<char>) -> bool {
    lower_of(a) == lower_of(b)
}

/// The list with the first case-insensitive occurrence of `t` dropped, and
/// nothing else changed.
pub open spec fn remove_first_ci(l: Seq<Seq<char>>, t: Seq<char>) -> Seq<Seq<char>>
    decreases l.len(),
{
    if l.len() == 0 {
        Seq::empty()
    } else if ci_eq(l[0], t) {
        l.drop_first()
    } else {
        seq![l[0]] + remove_first_ci(l.drop_first(), t)
    }
}

/// The PATH list after a switch to `t`: the first case-insensitive
/// occurrence of `t` is dropped, and `t` becomes entry 0.
pub open spec fn switched(l: Seq<Seq<char>>, t: Seq<char>) -> Seq<Seq<char>> {
    seq![t] + remove_first_ci(l, t)
}

/// When no entry matches `t`, dropping the first match changes nothing.
pub proof fn lemma_remove_first_ci_no_match(l: Seq<Seq<char>>, t: Seq<char>)
    requires
        forall|i: int| 0 <= i < l.len() ==> !ci_eq(l[i], t),
    ensures
        remove_first_ci(l, t) == l,
    decreases l.len(),
{
    if l.len() == 0 {
        assert(remove_first_ci(l, t) =~= l);
    } else {
        assert(!ci_eq(l[0], t));
        assert forall|i: int| 0 <= i < l.drop_first().len() implies !ci_eq(
            l.drop_first()[i],
            t,
        ) by {
            assert(l.drop_first()[i] == l[i + 1]);
        }
        lemma_remove_first_ci_no_match(l.drop_first(), t);
        assert(remove_first_ci(l, t) =~= l);
    }
}

/// When the first match sits at `k`, dropping the first match removes
/// exactly index `k`.
pub proof fn lemma_remove_first_ci_at(l: Seq<Seq<char>>, t: Seq<char>, k: int)
    requires
        0 <= k < l.len(),
        ci_eq(l[k], t),
        forall|i: int| 0 <= i < k ==> !ci_eq(l[i], t),
    ensures
        remove_first_ci(l, t) == l.remove(k),
    decreases k,
{
    if k == 0 {
        assert(remove_first_ci(l, t) =~= l.remove(0));
    } else {
        assert(!ci_eq(l[0], t));
        assert forall|i: int| 0 <= i < k - 1 implies !ci_eq(l.drop_first()[i], t) by {
            assert(l.drop_first()[i] == l[i + 1]);
        }
        assert(l.drop_first()[k - 1] == l[k]);
        lemma_remove_first_ci_at(l.drop_first(), t, k - 1);
        assert(remove_first_ci(l, t) =~= l.remove(k));
    }
}

/// Every entry other than the target survives a switch in order: with no
/// existing case-insensitive match the whole old list follows the target,
/// and with a first match at `k` exactly that one occurrence is dropped.
pub proof fn lemma_switch_preserves_entries(l: Seq<Seq<char>>, t: Seq<char>)
    ensures
        (forall|i: int| 0 <= i < l.len() ==> !ci_eq(l[i], t)) ==> switched(l, t) == seq![t] + l,
        forall|k: int|
            0 <= k < l.len() && ci_eq(l[k], t) && (forall|i: int| 0 <= i < k ==> !ci_eq(l[i], t))
                ==> switched(l, t) == seq![t] + l.remove(k),
{
    if forall|i: int| 0 <= i < l.len() ==> !ci_eq(l[i], t) {
        lemma_remove_first_ci_no_match(l, t);
    }
    assert forall|k: int|
        0 <= k < l.len() && ci_eq(l[k], t) && (forall|i: int|
            0 <= i < k ==> !ci_eq(l[i], t)) implies switched(l, t) == seq![t] + l.remove(k) by {
        lemma_remove_first_ci_at(l, t, k);
    }
}

/// Switching a second time to the same target changes nothing.
pub proof fn lemma_switch_idempotent(l: Seq<Seq<char>>, t: Seq<char>)
    ensures
        switched(switched(l, t), t) == switched(l, t),
{
    let s = switched(l, t);
    assert(s[0] == t);
    assert(ci_eq(s[0], t));
    assert(s.drop_first() =~= remove_first_ci(l, t));
    assert(switched(s, t) =~= s);
}

/// After dropping the first match from a list that held at most one match,
/// no match is left.
proof fn lemma_remove_first_ci_clears(l: Seq<Seq<char>>, t: Seq<char>)
    requires
        forall|i: int, j: int|
            0 <= i < j < l.len() ==> !(ci_eq(l[i], t) && ci_eq(l[j], t)),
    ensures
        forall|i: int|
            0 <= i < remove_first_ci(l, t).len() ==> !ci_eq(remove_first_ci(l, t)[i], t),
    decreases l.len(),
{
    if l.len() == 0 {
    } else if ci_eq(l[0], t) {
        assert forall|i: int| 0 <= i < l.drop_first().len() implies !ci_eq(
            l.drop_first()[i],
            t,
        ) by {
            assert(l.drop_first()[i] == l[i + 1]);
            assert(!(ci_eq(l[0], t) && ci_eq(l[i + 1], t)));
        }
    } else {
        assert forall|i: int, j: int|
            0 <= i < j < l.drop_first().len() implies !(ci_eq(l.drop_first()[i], t) && ci_eq(
            l.drop_first()[j],
            t,
        )) by {
            assert(l.drop_first()[i] == l[i + 1]);
            assert(l.drop_first()[j] == l[j + 1]);
        }
        lemma_remove_first_ci_clears(l.drop_first(), t);
        let r = remove_first_ci(l, t);
        let r1 = remove_first_ci(l.drop_first(), t);
        assert forall|i: int| 0 <= i < r.len() implies !ci_eq(r[i], t) by {
            if i > 0 {
                assert(r[i] == r1[i - 1]);
            }
        }
    }
}

/// When the old PATH list held the target at most once, the switched list
/// holds it exactly once, in front.
pub proof fn lemma_switch_target_once(l: Seq<Seq<char>>, t: Seq<char>)
    requires
        forall|i: int, j: int|
            0 <= i < j < l.len() ==> !(ci_eq(l[i], t) && ci_eq(l[j], t)),
    ensures
        switched(l, t)[0] == t,
        forall|i: int| 1 <= i < switched(l, t).len() ==> !ci_eq(switched(l, t)[i], t),
{
    lemma_remove_first_ci_clears(l, t);
    let s = switched(l, t);
    assert forall|i: int| 1 <= i < s.len() implies !ci_eq(s[i], t) by {
        assert(s[i] == remove_first_ci(l, t)[i - 1]);
    }
}

/// Rewrites a PATH list for a switch to `target_bin`: drops the first entry
/// equal to it under case-insensitive comparison, if any, and puts
/// `target_bin` in front. Never fails; entries keep their relative order.
#[verifier::loop_isolation(false)]
pub fn switch_path_list(path_vars: &Vec<String>, target_bin: &str) -> (r: Vec<String>)
    ensures
        r.deep_view() == switched(path_vars.deep_view(), target_bin@),
{
    let ghost l = path_vars.deep_view();
    let target_lower = lowercase(target_bin);
    let mut pos: Option<usize> = None;
    let mut i: usize = 0;
    while i < path_vars.len()
        invariant
            i <= path_vars.len(),
            match pos {
                Some(k) => k < i && ci_eq(l[k as int], target_bin@) && (forall|j: int|
                    0 <= j < k ==> !ci_eq(l[j], target_bin@)),
                None => forall|j: int| 0 <= j < i ==> !ci_eq(l[j], target_bin@),
            },
        decreases path_vars.len() - i,
    {
        if pos.is_none() {
            proof {
                assert(l[i as int] == path_vars@[i as int]@);
            }
            let low = lowercase(path_vars[i].as_str());
            if low.eq(&target_lower) {
                pos = Some(i);
            }
        }
        i += 1;
    }
    let mut out: Vec<String> = Vec::new();
    out.push(target_bin.to_owned());
    proof {
        assert(out.deep_view() =~= seq![target_bin@]);
    }
    let mut j: usize = 0;
    while j < path_vars.len()
        invariant
            j <= path_vars.len(),
            match pos {
                None => out.deep_view() == seq![target_bin@] + l.take(j as int),
                Some(k) => if j <= k {
                    out.deep_view() == seq![target_bin@] + l.take(j as int)
                } else {
                    out.deep_view() == seq![target_bin@] + l.take(j as int).remove(k as int)
                },
            },
        decreases path_vars.len() - j,
    {
        let ghost prev = out.deep_view();
        let skip = match pos {
            Some(k) => k == j,
            None => false,
        };
        if !skip {
            out.push(path_vars[j].clone());
            proof {
                assert(l[j as int] == path_vars@[j as int]@);
                assert(out.deep_view() =~= prev.push(l[j as int]));
            }
        }
        proof {
            let jj = j as int;
            match pos {
                None => {
                    assert(seq![target_bin@] + l.take(jj + 1) =~= (seq![target_bin@] + l.take(jj)).push(l[jj]));
                },
                Some(k) => {
                    let kk = k as int;
                    if jj < kk {
                        assert(seq![target_bin@] + l.take(jj + 1) =~= (seq![target_bin@] + l.take(
                            jj,
                        )).push(l[jj]));
                    } else if jj == kk {
                        assert(l.take(jj + 1).remove(kk) =~= l.take(jj));
                    } else {
                        assert(seq![target_bin@] + l.take(jj + 1).remove(kk) =~= (seq![target_bin@]
                            + l.take(jj).remove(kk)).push(l[jj]));
                    }
                },
            }
        }
        j += 1;
    }
    proof {
        assert(l.take(path_vars@.len() as int) =~= l);
        match pos {
            None => {
                lemma_remove_first_ci_no_match(l, target_bin@);
            },
            Some(k) => {
                lemma_remove_first_ci_at(l, target_bin@, k as int);
            },
        }
        assert(out.deep_view() =~= switched(l, target_bin@));
    }
    out
}

/// `installPath` followed by a separator and `bin`: the directory that holds
/// the SDK's executables.
pub open spec fn spec_target_bin(path: Seq<char>) -> Seq<char> {
    path + seq!['\\', 'b', 'i', 'n']
}

/// The `bin` directory of an install root, as one path string.
pub fn target_bin(path: &str) -> (r: String)
    ensures
        r@ == spec_target_bin(path@),
{
    let mut s = path.to_owned();
    s.append("\\bin");
    proof {
        reveal_strlit("\\bin");
        assert(("\\bin")@ =~= seq!['\\', 'b', 'i', 'n']);
    }
    s
}

/// Everything a switch writes back, computed up front: the rewritten PATH
/// list, and the value JAVA_HOME is to take for the current process (the
/// install root, not its `bin` directory).
pub struct SwitchPlan {
    pub path_entries: Vec<String>,
    pub java_home: String,
}

/// Resolves `name` in the registry and plans the switch against the PATH
/// list read from the environment store. Fails with `UnknownSdk`, planning
/// no change at all, exactly when no entry carries the name; resolution
/// takes the first (under unique names: the only) entry with it.
pub fn plan_switch(config: &JavaverConfig, name: &str, path_entries: &Vec<String>) -> (r: Result<
    SwitchPlan,
    JavaverError,
>)
    ensures
        match r {
            Ok(plan) => spec_contains_name(config@, name@) && exists|i: int|
                0 <= i < config@.len() && config@[i].0 == name@ && (forall|j: int|
                    0 <= j < i ==> config@[j].0 != name@) && plan.java_home@ == config@[i].1
                    && plan.path_entries.deep_view() == switched(
                    path_entries.deep_view(),
                    spec_target_bin(config@[i].1),
                ),
            Err(e) => e == JavaverError::UnknownSdk && !spec_contains_name(config@, name@),
        },
{
    let n = config.sdk.len();
    let mut i: usize = 0;
    while i < n
        invariant
            n == config.sdk.len(),
            i <= n,
            forall|k: int| 0 <= k < i ==> config@[k].0 != name@,
        decreases n - i,
    {
        if str_eq(config.sdk[i].name.as_str(), name) {
            proof {
                assert(config@[i as int].0 == name@);
            }
            let bin = target_bin(config.sdk[i].path.as_str());
            let entries = switch_path_list(path_entries, bin.as_str());
            let plan = SwitchPlan { path_entries: entries, java_home: config.sdk[i].path.clone() };
            proof {
                let gi = i as int;
                assert(0 <= gi < config@.len() && config@[gi].0 == name@ && (forall|j: int|
                    0 <= j < gi ==> config@[j].0 != name@) && plan.java_home@ == config@[gi].1
                    && plan.path_entries.deep_view() == switched(
                    path_entries.deep_view(),
                    spec_target_bin(config@[gi].1),
                ));
            }
            return Ok(plan);
        }
        i += 1;
    }
    Err(JavaverError::UnknownSdk)
}

/// After a successful remove of a unique name, planning a switch for that
/// name can only fail: no entry carries it any more.
pub proof fn lemma_remove_then_select(r: Seq<(Seq<char>, Seq<char>)>, name: Seq<char>, k: int)
    requires
        crate::config::unique_names(r),
        0 <= k < r.len(),
        r[k].0 == name,
    ensures
        !spec_contains_name(r.remove(k), name),
{
    let s = r.remove(k);
    assert forall|i: int| 0 <= i < s.len() implies s[i].0 != name by {
        if i < k {
            assert(s[i] == r[i]);
        } else {
            assert(s[i] == r[i + 1]);
        }
    }
}

/// The entries of a `;`-separated PATH value, in order. An empty value has
/// one empty entry, as splitting on the separator gives.
pub open spec fn split_semi(s: Seq<char>) -> Seq<Seq<char>>
    decreases s.len(),
{
    if s.len() == 0 {
        seq![Seq::<char>::empty()]
    } else if s[0] == ';' {
        seq![Seq::<char>::empty()] + split_semi(s.drop_first())
    } else {
        let rest = split_semi(s.drop_first());
        seq![seq![s[0]] + rest[0]] + rest.drop_first()
    }
}

/// Splitting yields at least one entry.
pub proof fn lemma_split_semi_len(s: Seq<char>)
    ensures
        split_semi(s).len() >= 1,
    decreases s.len(),
{
    if s.len() != 0 {
        lemma_split_semi_len(s.drop_first());
    }
}

/// The `;`-joined PATH value of a list of entries.
pub open spec fn join_semi(l: Seq<Seq<char>>) -> Seq<char>
    decreases l.len(),
{
    if l.len() == 0 {
        Seq::empty()
    } else if l.len() == 1 {
        l[0]
    } else {
        l[0] + seq![';'] + join_semi(l.drop_first())
    }
}

/// Joining one more entry appends a separator and the entry.
proof fn lemma_join_semi_push(l: Seq<Seq<char>>, x: Seq<char>)
    ensures
        l.len() == 0 ==> join_semi(l.push(x)) == x,
        l.len() > 0 ==> join_semi(l.push(x)) == join_semi(l) + seq![';'] + x,
    decreases l.len(),
{
    if l.len() == 0 {
        assert(l.push(x)[0] =~= x);
    } else {
        lemma_join_semi_push(l.drop_first(), x);
        assert(l.push(x).drop_first() =~= l.drop_first().push(x));
        if l.len() == 1 {
            assert(join_semi(l.push(x)) =~= l[0] + seq![';'] + x);
        } else {
            assert(join_semi(l.push(x)) =~= join_semi(l) + seq![';'] + x);
        }
    }
}

/// Splits a PATH value on `;` into its directory entries.
#[verifier::loop_isolation(false)]
pub fn split_path_value(s: &str) -> (r: Vec<String>)
    ensures
        r.deep_view() == split_semi(s@),
{
    let n = s.unicode_len();
    let mut out: Vec<String> = Vec::new();
    let mut cur: Vec<char> = Vec::new();
    let mut i: usize = 0;
    proof {
        lemma_split_semi_len(s@);
        assert(s@.skip(0) =~= s@);
        assert(out.deep_view() =~= Seq::<Seq<char>>::empty());
        assert(cur@ + split_semi(s@)[0] =~= split_semi(s@)[0]);
        assert(out.deep_view() + seq![split_semi(s@)[0]] + split_semi(s@).drop_first()
            =~= split_semi(s@));
    }
    while i < n
        invariant
            n == s@.len(),
            i <= n,
            split_semi(s@.skip(i as int)).len() >= 1,
            split_semi(s@) == out.deep_view() + seq![cur@ + split_semi(s@.skip(i as int))[0]]
                + split_semi(s@.skip(i as int)).drop_first(),
        decreases n - i,
    {
        let ghost rest = split_semi(s@.skip(i as int));
        let ghost rest1 = split_semi(s@.skip(i as int + 1));
        proof {
            lemma_split_semi_len(s@.skip(i as int + 1));
            assert(s@.skip(i as int).drop_first() =~= s@.skip(i as int + 1));
            assert(s@.skip(i as int)[0] == s@[i as int]);
        }
        let c = s.get_char(i);
        if c == ';' {
            let ghost prev_out = out.deep_view();
            let ghost prev_cur = cur@;
            out.push(crate::text::chars_to_string(&cur));
            cur = Vec::new();
            proof {
                assert(out.deep_view() =~= prev_out.push(prev_cur));
                assert(rest =~= seq![Seq::<char>::empty()] + rest1);
                assert(rest[0] =~= Seq::<char>::empty());
                assert(prev_cur + rest[0] =~= prev_cur);
                assert(rest.drop_first() =~= rest1);
                assert(seq![rest1[0]] + rest1.drop_first() =~= rest1);
                assert(cur@ + rest1[0] =~= rest1[0]);
                assert(split_semi(s@) =~= out.deep_view() + seq![cur@ + rest1[0]]
                    + rest1.drop_first());
            }
        } else {
            let ghost prev_cur = cur@;
            cur.push(c);
            proof {
                assert(rest =~= seq![seq![s@[i as int]] + rest1[0]] + rest1.drop_first());
                assert(rest[0] =~= seq![s@[i as int]] + rest1[0]);
                assert(cur@ + rest1[0] =~= prev_cur + rest[0]);
                assert(rest.drop_first() =~= rest1.drop_first());
                assert(split_semi(s@) =~= out.deep_view() + seq![cur@ + rest1[0]]
                    + rest1.drop_first());
            }
        }
        i += 1;
    }
    proof {
        assert(s@.skip(n as int) =~= Seq::<char>::empty());
        assert(split_semi(s@.skip(n as int)) =~= seq![Seq::<char>::empty()]);
    }
    let ghost prev_out = out.deep_view();
    out.push(crate::text::chars_to_string(&cur));
    proof {
        assert(out.deep_view() =~= prev_out.push(cur@));
        assert(cur@ + Seq::<char>::empty() =~= cur@);
        assert(out.deep_view() =~= split_semi(s@));
    }
    out
}

/// Joins PATH entries with `;` into the single value to write back.
#[verifier::loop_isolation(false)]
pub fn join_path_value(entries: &Vec<String>) -> (r: String)
    ensures
        r@ == join_semi(entries.deep_view()),
{
    let ghost l = entries.deep_view();
    let mut out = String::new();
    let mut i: usize = 0;
    while i < entries.len()
        invariant
            i <= entries.len(),
            out@ == join_semi(l.take(i as int)),
        decreases entries.len() - i,
    {
        if i > 0 {
            out.append(";");
            proof {
                reveal_strlit(";");
                assert((";")@ =~= seq![';']);
            }
        }
        out.append(entries[i].as_str());
        proof {
            assert(l[i as int] == entries@[i as int]@);
            assert(l.take(i as int + 1) =~= l.take(i as int).push(l[i as int]));
            lemma_join_semi_push(l.take(i as int), l[i as int]);
        }
        i += 1;
    }
    proof {
        assert(l.take(entries@.len() as int) =~= l);
    }
    out
}

/// The machine PATH value among the environment variables: the value of the
/// first variable whose name lowercases to `path`.
pub fn find_path_value(vars: &Vec<(String, String)>) -> (r: Option<String>)
    ensures
        match r {
            Some(v) => exists|i: int|
                0 <= i < vars@.len() && lower_of(vars@[i].0@) == "path"@ && (forall|j: int|
                    0 <= j < i ==> lower_of(vars@[j].0@) != "path"@) && v@ == vars@[i].1@,
            None => forall|i: int| 0 <= i < vars@.len() ==> lower_of(vars@[i].0@) != "path"@,
        },
{
    let key: String = "path".to_owned();
    let n = vars.len();
    let mut i: usize = 0;
    while i < n
        invariant
            n == vars@.len(),
            i <= n,
            key@ == "path"@,
            forall|j: int| 0 <= j < i ==> lower_of(vars@[j].0@) != "path"@,
        decreases n - i,
    {
        let low = lowercase(vars[i].0.as_str());
        if low.eq(&key) {
            let v = vars[i].1.clone();
            proof {
                let gi = i as int;
                assert(0 <= gi < vars@.len() && lower_of(vars@[gi].0@) == "path"@ && (forall|
                    j: int,
                | 0 <= j < gi ==> lower_of(vars@[j].0@) != "path"@) && v@ == vars@[gi].1@);
            }
            return Some(v);
        }
        i += 1;
    }
    None
}

} // verus!
