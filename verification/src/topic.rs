//! Hierarchical topic identifiers and MQTT-style subscription patterns.
//!
//! A topic is a dot-separated list of levels (`sensor.temperature`). A pattern
//! may use `*` for exactly one level and `#` for all remaining levels.
use vstd::prelude::*;

verus! {

/// The levels of a dot-separated string, exactly as `str::split('.')` yields
/// them: the empty string has one empty level, and a trailing dot gives an
/// empty last level.
pub open spec fn split_levels(s: Seq<char>) -> Seq<Seq<char>>
    decreases s.len(),
{
    if s.len() == 0 {
        seq![Seq::<char>::empty()]
    } else {
        let rest = split_levels(s.drop_last());
        if s.last() == '.' {
            rest.push(Seq::<char>::empty())
        } else {
            rest.update(rest.len() - 1, rest.last().push(s.last()))
        }
    }
}

/// Joins levels back with dots; the inverse of `split_levels`.
pub open spec fn join_levels(levels: Seq<Seq<char>>) -> Seq<char>
    decreases levels.len(),
{
    if levels.len() <= 1 {
        if levels.len() == 0 {
            Seq::<char>::empty()
        } else {
            levels[0]
        }
    } else {
        join_levels(levels.drop_last()).push('.') + levels.last()
    }
}

/// The single-level wildcard `*`.
pub open spec fn is_star(level: Seq<char>) -> bool {
    level == seq!['*']
}

/// The multi-level wildcard `#`.
pub open spec fn is_hash(level: Seq<char>) -> bool {
    level == seq!['#']
}

/// Whether the pattern levels `p` match the topic levels `t`, scanning both
/// from the left: `#` accepts whatever is left, `*` accepts any one level,
/// any other level must be equal, and both must end together.
pub open spec fn levels_match(p: Seq<Seq<char>>, t: Seq<Seq<char>>) -> bool
    decreases p.len(),
{
    if p.len() == 0 {
        t.len() == 0
    } else if is_hash(p[0]) {
        true
    } else if t.len() == 0 {
        false
    } else if is_star(p[0]) || p[0] == t[0] {
        levels_match(p.drop_first(), t.drop_first())
    } else {
        false
    }
}

/// Whether the subscription pattern `pattern` matches the topic `topic`.
pub open spec fn topic_matches(pattern: Seq<char>, topic: Seq<char>) -> bool {
    levels_match(split_levels(pattern), split_levels(topic))
}

/// A pattern with neither `*` nor `#` levels.
pub open spec fn is_literal_pattern(pattern: Seq<char>) -> bool {
    forall|i: int|
        0 <= i < split_levels(pattern).len() ==> !is_star(#[trigger] split_levels(pattern)[i])
            && !is_hash(split_levels(pattern)[i])
}

proof fn lemma_split_nonempty(s: Seq<char>)
    ensures
        split_levels(s).len() >= 1,
    decreases s.len(),
{
    if s.len() > 0 {
        lemma_split_nonempty(s.drop_last());
    }
}

proof fn lemma_join_split(s: Seq<char>)
    ensures
        join_levels(split_levels(s)) == s,
    decreases s.len(),
{
    if s.len() == 0 {
        assert(split_levels(s) =~= seq![Seq::<char>::empty()]);
    } else {
        let r = split_levels(s.drop_last());
        lemma_split_nonempty(s.drop_last());
        lemma_join_split(s.drop_last());
        if s.last() == '.' {
            let n = r.push(Seq::<char>::empty());
            assert(n.drop_last() =~= r);
            assert(join_levels(n) =~= join_levels(r).push('.') + Seq::<char>::empty());
            assert(s =~= s.drop_last().push('.'));
        } else {
            let n = r.update(r.len() - 1, r.last().push(s.last()));
            if r.len() == 1 {
                assert(join_levels(n) == n[0]);
                assert(s =~= s.drop_last().push(s.last()));
            } else {
                assert(n.drop_last() =~= r.drop_last());
                assert(join_levels(n) == join_levels(r.drop_last()).push('.') + r.last().push(
                    s.last(),
                ));
                assert(join_levels(r) == join_levels(r.drop_last()).push('.') + r.last());
                assert(join_levels(n) =~= join_levels(r).push(s.last()));
                assert(s =~= s.drop_last().push(s.last()));
            }
        }
    }
}

proof fn lemma_levels_match_refl(p: Seq<Seq<char>>)
    ensures
        levels_match(p, p),
    decreases p.len(),
{
    if p.len() > 0 && !is_hash(p[0]) {
        lemma_levels_match_refl(p.drop_first());
    }
}

proof fn lemma_levels_match_literal(p: Seq<Seq<char>>, t: Seq<Seq<char>>)
    requires
        forall|i: int| 0 <= i < p.len() ==> !is_star(#[trigger] p[i]) && !is_hash(p[i]),
    ensures
        levels_match(p, t) <==> p == t,
    decreases p.len(),
{
    if p.len() == 0 {
        if t.len() == 0 {
            assert(p =~= t);
        }
    } else if t.len() == 0 {
        assert(p != t);
    } else {
        let pr = p.drop_first();
        let tr = t.drop_first();
        assert(forall|i: int| 0 <= i < pr.len() ==> #[trigger] pr[i] == p[i + 1]);
        lemma_levels_match_literal(pr, tr);
        if p[0] == t[0] && pr == tr {
            assert forall|i: int| 0 <= i < p.len() implies p[i] == t[i] by {
                if i > 0 {
                    assert(p[i] == pr[i - 1]);
                    assert(t[i] == tr[i - 1]);
                }
            }
            assert(p =~= t);
        }
        if p == t {
            assert(pr =~= tr);
        }
    }
}

/// Without `#`, pattern levels match topic levels exactly when both have
/// the same number of levels and each pattern level is `*` or the topic's
/// level at the same place.
proof fn lemma_levels_match_without_hash(p: Seq<Seq<char>>, t: Seq<Seq<char>>)
    requires
        forall|i: int| 0 <= i < p.len() ==> !is_hash(#[trigger] p[i]),
    ensures
        levels_match(p, t) <==> (p.len() == t.len() && forall|i: int|
            0 <= i < p.len() ==> is_star(#[trigger] p[i]) || p[i] == t[i]),
    decreases p.len(),
{
    if p.len() > 0 && t.len() > 0 {
        let p1 = p.drop_first();
        let t1 = t.drop_first();
        assert forall|i: int| 0 <= i < p1.len() implies !is_hash(#[trigger] p1[i]) by {
            assert(p1[i] == p[i + 1]);
        }
        lemma_levels_match_without_hash(p1, t1);
        if p.len() == t.len() && forall|i: int| 0 <= i < p.len() ==> is_star(#[trigger] p[i]) || p[i] == t[i] {
            assert(is_star(p[0]) || p[0] == t[0]);
            assert forall|i: int| 0 <= i < p1.len() implies is_star(#[trigger] p1[i]) || p1[i] == t1[i] by {
                assert(p1[i] == p[i + 1] && t1[i] == t[i + 1]);
            }
        }
        if levels_match(p, t) {
            assert forall|i: int| 0 <= i < p.len() implies is_star(#[trigger] p[i]) || p[i] == t[i] by {
                if i > 0 {
                    assert(p1[i - 1] == p[i] && t1[i - 1] == t[i]);
                }
            }
        }
    } else if p.len() > 0 {
        assert(!is_hash(p[0]));
    }
}

/// `*` stands for exactly one level: a pattern without `#` matches only
/// topics with as many levels as it has, each `*` taking one level and
/// every other level matched literally.
pub proof fn law_star_matches_exactly_one_level(pattern: Seq<char>, topic: Seq<char>)
    requires
        forall|i: int| 0 <= i < split_levels(pattern).len() ==> !is_hash(#[trigger] split_levels(pattern)[i]),
    ensures
        topic_matches(pattern, topic) <==> (split_levels(pattern).len() == split_levels(topic).len() && forall|i: int|
            0 <= i < split_levels(pattern).len() ==> is_star(#[trigger] split_levels(pattern)[i])
                || split_levels(pattern)[i] == split_levels(topic)[i]),
{
    lemma_levels_match_without_hash(split_levels(pattern), split_levels(topic));
}

/// Every topic matches itself when read as a pattern.
pub proof fn law_topic_matches_itself(topic: Seq<char>)
    ensures
        topic_matches(topic, topic),
{
    lemma_levels_match_refl(split_levels(topic));
}

/// The pattern `#` matches every topic.
pub proof fn law_hash_matches_everything(topic: Seq<char>)
    ensures
        topic_matches(seq!['#'], topic),
{
    let p = seq!['#'];
    assert(p.drop_last() =~= Seq::<char>::empty());
    assert(split_levels(p.drop_last()) =~= seq![Seq::<char>::empty()]);
    assert(split_levels(p) =~= seq![seq!['#']]);
}

/// A pattern without wildcards matches exactly the topic that is spelled the
/// same way.
pub proof fn law_literal_pattern_matches_only_itself(pattern: Seq<char>, topic: Seq<char>)
    requires
        is_literal_pattern(pattern),
    ensures
        topic_matches(pattern, topic) <==> pattern == topic,
{
    lemma_levels_match_literal(split_levels(pattern), split_levels(topic));
    lemma_join_split(pattern);
    lemma_join_split(topic);
}

/// The views of a vector of character vectors.
pub open spec fn level_views(levels: Seq<Vec<char>>) -> Seq<Seq<char>> {
    levels.map_values(|v: Vec<char>| v@)
}

/// Splits `s` at every `.` into its levels.
fn split_on_dots(s: &str) -> (levels: Vec<Vec<char>>)
    ensures
        level_views(levels@) == split_levels(s@),
{
    let n = s.unicode_len();
    let mut done: Vec<Vec<char>> = Vec::new();
    let mut cur: Vec<char> = Vec::new();
    let mut i: usize = 0;
    assert(s@.take(0) =~= Seq::<char>::empty());
    while i < n
        invariant
            n == s@.len(),
            i <= n,
            level_views(done@).push(cur@) == split_levels(s@.take(i as int)),
        decreases n - i,
    {
        let c = s.get_char(i);
        let ghost prev = s@.take(i as int);
        assert(s@.take(i + 1).drop_last() =~= prev);
        assert(s@.take(i + 1).last() == c);
        if c == '.' {
            let ghost old_done = done@;
            done.push(cur);
            cur = Vec::new();
            assert(level_views(done@) =~= level_views(old_done).push(
                split_levels(prev).last(),
            ));
            assert(level_views(done@).push(cur@) =~= split_levels(prev).push(
                Seq::<char>::empty(),
            ));
        } else {
            let ghost old_cur = cur@;
            cur.push(c);
            assert(level_views(done@).push(cur@) =~= split_levels(prev).update(
                split_levels(prev).len() - 1,
                split_levels(prev).last().push(c),
            ));
        }
        i = i + 1;
    }
    assert(s@.take(n as int) =~= s@);
    let ghost before = done@;
    done.push(cur);
    assert(level_views(done@) =~= level_views(before).push(cur@));
    done
}

/// Whether two levels are equal.
fn level_eq(a: &Vec<char>, b: &Vec<char>) -> (eq: bool)
    ensures
        eq == (a@ == b@),
{
    if a.len() != b.len() {
        return false;
    }
    let mut i: usize = 0;
    while i < a.len()
        invariant
            a.len() == b.len(),
            i <= a.len(),
            forall|j: int| 0 <= j < i ==> a@[j] == b@[j],
        decreases a.len() - i,
    {
        if a[i] != b[i] {
            return false;
        }
        i = i + 1;
    }
    assert(a@ =~= b@);
    true
}

/// Whether a level is the one-character wildcard `w`.
fn level_is(level: &Vec<char>, w: char) -> (is: bool)
    ensures
        is == (level@ == seq![w]),
{
    if level.len() == 1 && level[0] == w {
        assert(level@ =~= seq![w]);
        true
    } else {
        false
    }
}

/// Matches a hierarchical topic ID against a subscription topic pattern.
///
/// `*` matches a single level (`sensor.*` matches `sensor.temp` but not
/// `sensor.temp.celsius`); `#` matches all remaining levels
/// (`sensor.#` matches `sensor.temp` and `sensor.temp.celsius`).
pub fn match_topic(pattern: &str, topic: &str) -> (matched: bool)
    ensures
        matched == topic_matches(pattern@, topic@),
{
    let p_parts = split_on_dots(pattern);
    let t_parts = split_on_dots(topic);
    let ghost p = level_views(p_parts@);
    let ghost t = level_views(t_parts@);
    let mut idx: usize = 0;
    assert(p.skip(0) =~= p);
    assert(t.skip(0) =~= t);
    while idx < p_parts.len()
        invariant
            p == level_views(p_parts@),
            t == level_views(t_parts@),
            p == split_levels(pattern@),
            t == split_levels(topic@),
            idx <= p_parts.len(),
            idx <= t_parts.len(),
            levels_match(p, t) == levels_match(p.skip(idx as int), t.skip(idx as int)),
        decreases p_parts.len() - idx,
    {
        let ghost ps = p.skip(idx as int);
        let ghost ts = t.skip(idx as int);
        assert(ps[0] == p_parts@[idx as int]@);
        if level_is(&p_parts[idx], '#') {
            return true;
        }
        if idx >= t_parts.len() {
            assert(ts.len() == 0);
            return false;
        }
        assert(ts[0] == t_parts@[idx as int]@);
        assert(ps.drop_first() =~= p.skip(idx + 1));
        assert(ts.drop_first() =~= t.skip(idx + 1));
        if level_is(&p_parts[idx], '*') {
            idx = idx + 1;
            continue;
        }
        if !level_eq(&p_parts[idx], &t_parts[idx]) {
            return false;
        }
        idx = idx + 1;
    }
    assert(p.skip(idx as int).len() == 0);
    idx == t_parts.len()
}

} // verus!
