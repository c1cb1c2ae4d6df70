//! What is typed: names of scenarios and solvers, pairs of numbers, and the
//! names of boats.

use vstd::prelude::*;

use crate::route::WindOverride;
use crate::scalar::Scalar;

verus! {

/// Which scenario is run.
#[derive(Clone, Copy, PartialEq, Eq, Structural, Debug)]
pub enum Scenario {
    Route,
    Polar,
    Plan,
    Fleet,
    Hil,
}

/// How the dynamics are integrated: with an adaptive step, or with a fixed one.
#[derive(Clone, Copy, PartialEq, Eq, Structural, Debug)]
pub enum Solver {
    Dopri5,
    Rk4,
}

/// Whether two texts are the same.
pub fn same_text(a: &str, b: &str) -> (r: bool)
    ensures
        r == (a@ == b@),
{
    let n: usize = a.unicode_len();
    if n != b.unicode_len() {
        return false;
    }
    let mut i: usize = 0;
    while i < n
        invariant
            n == a@.len(),
            n == b@.len(),
            i <= n,
            forall|k: int| 0 <= k < i ==> a@[k] == b@[k],
        decreases n - i,
    {
        if a.get_char(i) != b.get_char(i) {
            return false;
        }
        i = i + 1;
    }
    assert(a@ =~= b@);
    true
}

/// The scenario of a name.
pub open spec fn scenario_named(name: Seq<char>) -> Option<Scenario> {
    if name == "route"@ {
        Some(Scenario::Route)
    } else if name == "polar"@ {
        Some(Scenario::Polar)
    } else if name == "plan"@ {
        Some(Scenario::Plan)
    } else if name == "fleet"@ {
        Some(Scenario::Fleet)
    } else if name == "hil"@ {
        Some(Scenario::Hil)
    } else {
        None
    }
}

/// The scenario of a name. `quoted` is the name as an error shows it.
pub fn scenario_of(name: &str, quoted: &str) -> (r: Result<Scenario, String>)
    ensures
        match r {
            Ok(s) => scenario_named(name@) == Some(s),
            Err(text) => scenario_named(name@) is None && text@ == "unknown scenario "@ + quoted@
                + "; supported: route, polar, plan, fleet, hil"@,
        },
{
    if same_text(name, "route") {
        Ok(Scenario::Route)
    } else if same_text(name, "polar") {
        Ok(Scenario::Polar)
    } else if same_text(name, "plan") {
        Ok(Scenario::Plan)
    } else if same_text(name, "fleet") {
        Ok(Scenario::Fleet)
    } else if same_text(name, "hil") {
        Ok(Scenario::Hil)
    } else {
        let mut text: String = "unknown scenario ".to_string();
        text.append(quoted);
        text.append("; supported: route, polar, plan, fleet, hil");
        Err(text)
    }
}

/// The solver of a name.
pub open spec fn solver_named(name: Seq<char>) -> Option<Solver> {
    if name == "dopri5"@ {
        Some(Solver::Dopri5)
    } else if name == "rk4"@ {
        Some(Solver::Rk4)
    } else {
        None
    }
}

/// The solver of a name. `quoted` is the name as an error shows it.
pub fn solver_of(name: &str, quoted: &str) -> (r: Result<Solver, String>)
    ensures
        match r {
            Ok(s) => solver_named(name@) == Some(s),
            Err(text) => solver_named(name@) is None && text@ == "unknown --solver "@ + quoted@
                + "; supported: dopri5, rk4"@,
        },
{
    if same_text(name, "dopri5") {
        Ok(Solver::Dopri5)
    } else if same_text(name, "rk4") {
        Ok(Solver::Rk4)
    } else {
        let mut text: String = "unknown --solver ".to_string();
        text.append(quoted);
        text.append("; supported: dopri5, rk4");
        Err(text)
    }
}

/// The wind given on the command line: both its direction and its speed, or
/// neither.
pub fn wind_override(wind_deg: Option<Scalar>, wind_speed: Option<Scalar>) -> (r: Result<
    Option<WindOverride>,
    String,
>)
    ensures
        match r {
            Ok(Some(w)) => wind_deg == Some(w.direction_deg) && wind_speed == Some(w.speed),
            Ok(None) => wind_deg is None && wind_speed is None,
            Err(text) => {
                &&& wind_deg is Some != wind_speed is Some
                &&& text@ == "--wind-deg and --wind-speed must be set together"@
            },
        },
{
    match (wind_deg, wind_speed) {
        (Some(d), Some(s)) => Ok(Some(WindOverride { direction_deg: d, speed: s })),
        (None, None) => Ok(None),
        _ => Err("--wind-deg and --wind-speed must be set together".to_string()),
    }
}

/// Whether a character is white space.
pub open spec fn white(c: char) -> bool {
    let n = c as u32;
    ||| 0x9 <= n <= 0xd
    ||| n == 0x20
    ||| n == 0x85
    ||| n == 0xa0
    ||| n == 0x1680
    ||| 0x2000 <= n <= 0x200a
    ||| n == 0x2028
    ||| n == 0x2029
    ||| n == 0x202f
    ||| n == 0x205f
    ||| n == 0x3000
}

fn is_white(c: char) -> (r: bool)
    ensures
        r == white(c),
{
    let n: u32 = c as u32;
    (0x9 <= n && n <= 0xd) || n == 0x20 || n == 0x85 || n == 0xa0 || n == 0x1680 || (0x2000 <= n
        && n <= 0x200a) || n == 0x2028 || n == 0x2029 || n == 0x202f || n == 0x205f || n == 0x3000
}

/// A text without the white space before it.
pub open spec fn trim_start(s: Seq<char>) -> Seq<char>
    decreases s.len(),
{
    if s.len() > 0 && white(s[0]) {
        trim_start(s.drop_first())
    } else {
        s
    }
}

/// A text without the white space behind it.
pub open spec fn trim_end(s: Seq<char>) -> Seq<char>
    decreases s.len(),
{
    if s.len() > 0 && white(s.last()) {
        trim_end(s.drop_last())
    } else {
        s
    }
}

/// A text without the white space around it.
pub open spec fn trimmed(s: Seq<char>) -> Seq<char> {
    trim_end(trim_start(s))
}

/// A text without the white space around it.
pub fn trim<'a>(s: &'a str) -> (r: &'a str)
    ensures
        r@ == trimmed(s@),
{
    let n: usize = s.unicode_len();
    let mut from: usize = 0;
    assert(s@.skip(0) =~= s@);
    while from < n && is_white(s.get_char(from))
        invariant
            n == s@.len(),
            from <= n,
            trim_start(s@) == trim_start(s@.skip(from as int)),
        decreases n - from,
    {
        assert(s@.skip(from as int).drop_first() =~= s@.skip(from + 1));
        from = from + 1;
    }
    assert(trim_start(s@) == s@.skip(from as int));
    let mut to: usize = n;
    assert(s@.subrange(from as int, n as int) =~= s@.skip(from as int));
    while to > from && is_white(s.get_char(to - 1))
        invariant
            n == s@.len(),
            from <= to <= n,
            trimmed(s@) == trim_end(s@.subrange(from as int, to as int)),
        decreases to - from,
    {
        assert(s@.subrange(from as int, to as int).drop_last() =~= s@.subrange(
            from as int,
            to - 1,
        ));
        to = to - 1;
    }
    s.substring_char(from, to)
}

/// Place of the first comma, or the length if there is none.
pub open spec fn first_comma(s: Seq<char>) -> int
    decreases s.len(),
{
    if s.len() == 0 || s[0] == ',' {
        0
    } else {
        1 + first_comma(s.drop_first())
    }
}

/// Place of the first white space, or the length if there is none.
pub open spec fn first_white(s: Seq<char>) -> int
    decreases s.len(),
{
    if s.len() == 0 || white(s[0]) {
        0
    } else {
        1 + first_white(s.drop_first())
    }
}

fn find_comma(s: &str) -> (r: usize)
    ensures
        r == first_comma(s@),
        r <= s@.len(),
{
    let n: usize = s.unicode_len();
    let mut i: usize = 0;
    assert(s@.skip(0) =~= s@);
    while i < n && s.get_char(i) != ','
        invariant
            n == s@.len(),
            i <= n,
            first_comma(s@) == i + first_comma(s@.skip(i as int)),
        decreases n - i,
    {
        assert(s@.skip(i as int).drop_first() =~= s@.skip(i + 1));
        i = i + 1;
    }
    i
}

fn find_white(s: &str) -> (r: usize)
    ensures
        r == first_white(s@),
        r <= s@.len(),
{
    let n: usize = s.unicode_len();
    let mut i: usize = 0;
    assert(s@.skip(0) =~= s@);
    while i < n && !is_white(s.get_char(i))
        invariant
            n == s@.len(),
            i <= n,
            first_white(s@) == i + first_white(s@.skip(i as int)),
        decreases n - i,
    {
        assert(s@.skip(i as int).drop_first() =~= s@.skip(i + 1));
        i = i + 1;
    }
    i
}

/// The two parts of a pair: what stands before and behind the first comma, or,
/// without a comma, the first white space.
pub open spec fn pair_of(s: Seq<char>) -> Option<(Seq<char>, Seq<char>)> {
    let t = trimmed(s);
    let comma = first_comma(t);
    let gap = first_white(t);
    if comma < t.len() {
        Some((trimmed(t.take(comma)), trimmed(t.skip(comma + 1))))
    } else if gap < t.len() {
        Some((trimmed(t.take(gap)), trimmed(t.skip(gap + 1))))
    } else {
        None
    }
}

/// Split `X,Y` or `X Y` into its parts, without the white space around them.
pub fn split_xy<'a>(s: &'a str) -> (r: Result<(&'a str, &'a str), String>)
    ensures
        match r {
            Ok(p) => pair_of(s@) == Some((p.0@, p.1@)),
            Err(text) => pair_of(s@) is None && text@ == "expected `X,Y`"@,
        },
{
    let t: &str = trim(s);
    let n: usize = t.unicode_len();
    let comma: usize = find_comma(t);
    let at: usize = if comma < n {
        comma
    } else {
        find_white(t)
    };
    if at >= n {
        return Err("expected `X,Y`".to_string());
    }
    let a: &str = t.substring_char(0, at);
    let b: &str = t.substring_char(at + 1, n);
    assert(t@.subrange(0, at as int) =~= t@.take(at as int));
    assert(t@.subrange(at + 1, n as int) =~= t@.skip(at + 1));
    Ok((trim(a), trim(b)))
}

/// The name of a boat: that of its configuration, without the common prefix.
pub open spec fn boat_named(stem: Seq<char>) -> Seq<char> {
    let prefix = "sim_params_"@;
    if prefix.len() <= stem.len() && stem.take(prefix.len() as int) == prefix {
        stem.skip(prefix.len() as int)
    } else {
        stem
    }
}

/// The name of a boat: that of its configuration, without the common prefix.
pub fn boat_name<'a>(stem: &'a str) -> (r: &'a str)
    ensures
        r@ == boat_named(stem@),
{
    let prefix: &str = "sim_params_";
    let k: usize = prefix.unicode_len();
    let n: usize = stem.unicode_len();
    if k <= n {
        let head: &str = stem.substring_char(0, k);
        assert(stem@.subrange(0, k as int) =~= stem@.take(k as int));
        if same_text(head, prefix) {
            assert(stem@.subrange(k as int, n as int) =~= stem@.skip(k as int));
            return stem.substring_char(k, n);
        }
    }
    stem
}

/// Trimming leaves neither white space before a text nor behind it, and does
/// nothing the second time.
pub proof fn law_trimming_is_final(s: Seq<char>)
    ensures
        trimmed(s).len() > 0 ==> !white(trimmed(s).first()) && !white(trimmed(s).last()),
        trimmed(trimmed(s)) == trimmed(s),
{
    lemma_trim_start(s);
    lemma_trim_end(trim_start(s));
}

proof fn lemma_trim_start(s: Seq<char>)
    ensures
        trim_start(s).len() > 0 ==> !white(trim_start(s).first()),
    decreases s.len(),
{
    if s.len() > 0 && white(s[0]) {
        lemma_trim_start(s.drop_first());
    }
}

proof fn lemma_trim_end(s: Seq<char>)
    ensures
        trim_end(s).len() > 0 ==> !white(trim_end(s).last()),
        trim_end(s).len() > 0 ==> trim_end(s).first() == s.first(),
        trim_end(s).len() <= s.len(),
    decreases s.len(),
{
    if s.len() > 0 && white(s.last()) {
        lemma_trim_end(s.drop_last());
    }
}

/// Each scenario goes by its own name, and no other name gives one.
pub proof fn law_scenarios_go_by_their_names(name: Seq<char>)
    ensures
        scenario_named(name) == Some(Scenario::Route) <==> name == "route"@,
        scenario_named(name) == Some(Scenario::Polar) <==> name == "polar"@,
        scenario_named(name) == Some(Scenario::Plan) <==> name == "plan"@,
        scenario_named(name) == Some(Scenario::Fleet) <==> name == "fleet"@,
        scenario_named(name) == Some(Scenario::Hil) <==> name == "hil"@,
{
    reveal_strlit("route");
    reveal_strlit("polar");
    reveal_strlit("plan");
    reveal_strlit("fleet");
    reveal_strlit("hil");
    assert("route"@[0] != "polar"@[0]);
    assert("polar"@[1] != "plan"@[1]);
    assert("fleet"@[0] != "hil"@[0]);
    assert("route"@[0] != "fleet"@[0] && "polar"@[0] != "fleet"@[0] && "plan"@[0] != "fleet"@[0]);
    assert("route"@[0] != "hil"@[0] && "polar"@[0] != "hil"@[0] && "plan"@[0] != "hil"@[0]);
    assert("route"@[0] != "plan"@[0]);
}

/// Each solver goes by its own name, and no other name gives one.
pub proof fn law_solvers_go_by_their_names(name: Seq<char>)
    ensures
        solver_named(name) == Some(Solver::Dopri5) <==> name == "dopri5"@,
        solver_named(name) == Some(Solver::Rk4) <==> name == "rk4"@,
{
    reveal_strlit("dopri5");
    reveal_strlit("rk4");
    assert("dopri5"@[0] != "rk4"@[0]);
}

/// Trimming takes away white space only, before a text and behind it, and leaves
/// what stands between as it is.
pub proof fn law_trimming_takes_white_space_only(s: Seq<char>) -> (around: (Seq<char>, Seq<char>))
    ensures
        s == around.0 + trimmed(s) + around.1,
        forall|i: int| 0 <= i < around.0.len() ==> white(#[trigger] around.0[i]),
        forall|i: int| 0 <= i < around.1.len() ==> white(#[trigger] around.1[i]),
{
    let before = lemma_trim_start_takes_white(s);
    let behind = lemma_trim_end_takes_white(trim_start(s));
    assert(s =~= before + trimmed(s) + behind);
    (before, behind)
}

proof fn lemma_trim_start_takes_white(s: Seq<char>) -> (before: Seq<char>)
    ensures
        s == before + trim_start(s),
        forall|i: int| 0 <= i < before.len() ==> white(#[trigger] before[i]),
    decreases s.len(),
{
    if s.len() > 0 && white(s[0]) {
        let rest = lemma_trim_start_takes_white(s.drop_first());
        let before = seq![s[0]] + rest;
        let left = trim_start(s.drop_first());
        assert(s.drop_first() == rest + left);
        assert(s =~= seq![s[0]] + s.drop_first());
        assert(before + left =~= seq![s[0]] + (rest + left));
        assert forall|i: int| 0 <= i < before.len() implies white(#[trigger] before[i]) by {
            if i > 0 {
                assert(before[i] == rest[i - 1]);
            }
        }
        before
    } else {
        assert(s =~= Seq::<char>::empty() + s);
        Seq::empty()
    }
}

proof fn lemma_trim_end_takes_white(s: Seq<char>) -> (behind: Seq<char>)
    ensures
        s == trim_end(s) + behind,
        forall|i: int| 0 <= i < behind.len() ==> white(#[trigger] behind[i]),
    decreases s.len(),
{
    if s.len() > 0 && white(s.last()) {
        let rest = lemma_trim_end_takes_white(s.drop_last());
        let behind = rest.push(s.last());
        let left = trim_end(s.drop_last());
        assert(s.drop_last() == left + rest);
        assert(s =~= s.drop_last().push(s.last()));
        assert(left + behind =~= (left + rest).push(s.last()));
        behind
    } else {
        assert(s =~= s + Seq::<char>::empty());
        Seq::empty()
    }
}

proof fn lemma_first_comma_is(s: Seq<char>, k: int)
    requires
        0 <= k <= s.len(),
        k < s.len() ==> s[k] == ',',
        forall|i: int| 0 <= i < k ==> #[trigger] s[i] != ',',
    ensures
        first_comma(s) == k,
    decreases s.len(),
{
    if k > 0 {
        let rest = s.drop_first();
        assert(s[0] != ',');
        assert forall|i: int| 0 <= i < k - 1 implies #[trigger] rest[i] != ',' by {
            assert(s[i + 1] != ',');
        }
        lemma_first_comma_is(rest, k - 1);
    }
}

proof fn lemma_first_white_is(s: Seq<char>, k: int)
    requires
        0 <= k <= s.len(),
        k < s.len() ==> white(s[k]),
        forall|i: int| 0 <= i < k ==> !white(#[trigger] s[i]),
    ensures
        first_white(s) == k,
    decreases s.len(),
{
    if k > 0 {
        let rest = s.drop_first();
        assert(!white(s[0]));
        assert forall|i: int| 0 <= i < k - 1 implies !white(#[trigger] rest[i]) by {
            assert(!white(s[i + 1]));
        }
        lemma_first_white_is(rest, k - 1);
    }
}

/// Two words are read back from between a comma, or from between white space where
/// there is no comma: the first one before it and the second one behind it. A
/// single word is no pair.
pub proof fn law_pair_is_read_back(a: Seq<char>, b: Seq<char>, gap: char)
    requires
        a.len() > 0,
        b.len() > 0,
        forall|i: int| 0 <= i < a.len() ==> !white(#[trigger] a[i]) && a[i] != ',',
        forall|i: int| 0 <= i < b.len() ==> !white(#[trigger] b[i]) && b[i] != ',',
        gap == ',' || white(gap),
    ensures
        pair_of(a.push(gap) + b) == Some((a, b)),
        pair_of(a) is None,
{
    let s = a.push(gap) + b;
    let k = a.len() as int;
    assert(s[0] == a[0]);
    assert(s.last() == b[b.len() - 1]);
    assert(a.last() == a[a.len() - 1]);
    assert(b.last() == b[b.len() - 1]);
    assert(trimmed(s) == s && trimmed(a) == a && trimmed(b) == b);
    assert(s.take(k) =~= a);
    assert(s.skip(k + 1) =~= b);
    assert forall|i: int| 0 <= i < k implies !white(#[trigger] s[i]) && s[i] != ',' by {
        assert(s[i] == a[i]);
    }
    assert forall|i: int| k < i < s.len() implies #[trigger] s[i] != ',' by {
        assert(s[i] == b[i - k - 1]);
    }
    assert(s[k] == gap);
    if gap == ',' {
        lemma_first_comma_is(s, k);
    } else {
        lemma_first_comma_is(s, s.len() as int);
        lemma_first_white_is(s, k);
    }
    lemma_first_comma_is(a, k);
    lemma_first_white_is(a, k);
}

/// The prefix of a configuration is taken off a name that has it, and only there.
pub proof fn law_boat_name_drops_the_prefix(stem: Seq<char>)
    ensures
        boat_named("sim_params_"@ + stem) == stem,
        (forall|rest: Seq<char>| stem != "sim_params_"@ + rest) ==> boat_named(stem) == stem,
{
    let prefix = "sim_params_"@;
    let whole = prefix + stem;
    assert(whole.take(prefix.len() as int) =~= prefix);
    assert(whole.skip(prefix.len() as int) =~= stem);
    if prefix.len() <= stem.len() && stem.take(prefix.len() as int) == prefix {
        assert(stem =~= prefix + stem.skip(prefix.len() as int));
    }
}

} // verus!
