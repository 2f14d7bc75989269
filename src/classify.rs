use vstd::prelude::*;

verus! {

/// `s` ends with `t`, character by character.
pub open spec fn ends_with(s: Seq<char>, t: Seq<char>) -> bool {
    t.len() <= s.len() && s.subrange(s.len() - t.len(), s.len() as int) == t
}

/// Whether `s` ends with `t`.
pub fn str_ends_with(s: &str, t: &str) -> (r: bool)
    ensures
        r == ends_with(s@, t@),
{
    let n = s.unicode_len();
    let m = t.unicode_len();
    if m > n {
        return false;
    }
    let off: usize = n - m;
    let mut i: usize = 0;
    while i < m
        invariant
            n == s@.len(),
            m == t@.len(),
            off + m == n,
            i <= m,
            forall|k: int| 0 <= k < i ==> s@[off + k] == t@[k],
        decreases m - i,
    {
        if s.get_char(off + i) != t.get_char(i) {
            assert(s@.subrange(off as int, n as int)[i as int] != t@[i as int]);
            return false;
        }
        i = i + 1;
    }
    assert(s@.subrange(off as int, n as int) =~= t@);
    true
}


/// A suffix rule: files whose name ends with `suffix` go under `template`,
/// a destination written with `/` between its segments.
#[derive(Clone, Debug)]
pub struct Rule {
    pub suffix: String,
    pub template: String,
}

/// Rule `r` applies to the file name `name`: its suffix is non-empty and ends the name.
pub open spec fn rule_matches(name: Seq<char>, r: Rule) -> bool {
    r.suffix@.len() > 0 && ends_with(name, r.suffix@)
}

/// The rule chosen for `name` among the first `n` rules: the longest matching
/// suffix wins, and among equally long ones the earliest.
pub open spec fn best_rule_upto(name: Seq<char>, rules: Seq<Rule>, n: int) -> Option<int>
    decreases n,
{
    if n <= 0 {
        None
    } else {
        let b = best_rule_upto(name, rules, n - 1);
        if rule_matches(name, rules[n - 1]) && (b is None
            || rules[b->0].suffix@.len() < rules[n - 1].suffix@.len()) {
            Some(n - 1)
        } else {
            b
        }
    }
}

/// The rule chosen for `name`.
pub open spec fn best_rule(name: Seq<char>, rules: Seq<Rule>) -> Option<int> {
    best_rule_upto(name, rules, rules.len() as int)
}

/// The chosen rule is a matching one, no matching rule has a longer suffix,
/// and every matching rule before it has a strictly shorter one; no rule is
/// chosen exactly when none matches.
pub proof fn lemma_best_rule_longest_first(name: Seq<char>, rules: Seq<Rule>)
    ensures
        best_rule(name, rules) is None <==> (forall|j: int|
            0 <= j < rules.len() ==> !rule_matches(name, #[trigger] rules[j])),
        best_rule(name, rules) matches Some(i) ==> {
            &&& 0 <= i < rules.len()
            &&& rule_matches(name, rules[i])
            &&& forall|j: int|
                0 <= j < rules.len() && rule_matches(name, #[trigger] rules[j])
                    ==> rules[j].suffix@.len() <= rules[i].suffix@.len()
            &&& forall|j: int|
                0 <= j < i && rule_matches(name, #[trigger] rules[j])
                    ==> rules[j].suffix@.len() < rules[i].suffix@.len()
        },
{
    lemma_best_rule_upto(name, rules, rules.len() as int);
}

proof fn lemma_best_rule_upto(name: Seq<char>, rules: Seq<Rule>, n: int)
    requires
        0 <= n <= rules.len(),
    ensures
        best_rule_upto(name, rules, n) is None <==> (forall|j: int|
            0 <= j < n ==> !rule_matches(name, #[trigger] rules[j])),
        best_rule_upto(name, rules, n) matches Some(i) ==> {
            &&& 0 <= i < n
            &&& rule_matches(name, rules[i])
            &&& forall|j: int|
                0 <= j < n && rule_matches(name, #[trigger] rules[j])
                    ==> rules[j].suffix@.len() <= rules[i].suffix@.len()
            &&& forall|j: int|
                0 <= j < i && rule_matches(name, #[trigger] rules[j])
                    ==> rules[j].suffix@.len() < rules[i].suffix@.len()
        },
    decreases n,
{
    if n > 0 {
        lemma_best_rule_upto(name, rules, n - 1);
    }
}

/// An optional index, as a mathematical integer.
pub open spec fn index_view(r: Option<usize>) -> Option<int> {
    match r {
        Some(i) => Some(i as int),
        None => None,
    }
}

/// Index of the rule chosen for `name`, longest suffix first.
pub fn find_rule(name: &String, rules: &Vec<Rule>) -> (r: Option<usize>)
    ensures
        r matches Some(i) ==> i < rules@.len(),
        index_view(r) == best_rule(name@, rules@),
{
    let mut best: Option<usize> = None;
    let mut best_len: usize = 0;
    let mut k: usize = 0;
    while k < rules.len()
        invariant
            k <= rules@.len(),
            best matches Some(b) ==> b < k && best_len == rules@[b as int].suffix@.len(),
            index_view(best) == best_rule_upto(name@, rules@, k as int),
        decreases rules@.len() - k,
    {
        let suffix = &rules[k].suffix;
        let len = suffix.as_str().unicode_len();
        if len > 0 && str_ends_with(name.as_str(), suffix.as_str()) {
            if best.is_none() || best_len < len {
                best = Some(k);
                best_len = len;
            }
        }
        k = k + 1;
    }
    best
}


/// Where the segment that is still open after the first `i` characters of a
/// `/`-separated text begins.
pub open spec fn open_segment_start(s: Seq<char>, i: int) -> int
    decreases i,
{
    if i <= 0 {
        0
    } else if s[i - 1] == '/' {
        i
    } else {
        open_segment_start(s, i - 1)
    }
}

/// The non-empty segments closed by a `/` within the first `i` characters.
pub open spec fn closed_segments(s: Seq<char>, i: int) -> Seq<Seq<char>>
    decreases i,
{
    if i <= 0 {
        Seq::empty()
    } else {
        let prev = closed_segments(s, i - 1);
        let start = open_segment_start(s, i - 1);
        if s[i - 1] == '/' && start < i - 1 {
            prev.push(s.subrange(start, i - 1))
        } else {
            prev
        }
    }
}

/// The segments of a destination written with `/` as separator; empty
/// segments (doubled, leading or trailing separators) are dropped.
pub open spec fn template_segments(s: Seq<char>) -> Seq<Seq<char>> {
    let start = open_segment_start(s, s.len() as int);
    if start < s.len() {
        closed_segments(s, s.len() as int).push(s.subrange(start, s.len() as int))
    } else {
        closed_segments(s, s.len() as int)
    }
}

/// What a sequence of strings holds, as character sequences.
pub open spec fn segments_view(v: Seq<String>) -> Seq<Seq<char>> {
    v.map_values(|x: String| x@)
}

proof fn lemma_open_segment_start_bounds(s: Seq<char>, i: int)
    requires
        0 <= i,
    ensures
        0 <= open_segment_start(s, i) <= i,
    decreases i,
{
    if i > 0 {
        lemma_open_segment_start_bounds(s, i - 1);
    }
}

/// Splits a `/`-separated destination into its non-empty segments.
pub fn split_template(t: &String) -> (r: Vec<String>)
    ensures
        segments_view(r@) == template_segments(t@),
{
    let n = t.as_str().unicode_len();
    let mut out: Vec<String> = Vec::new();
    let mut start: usize = 0;
    let mut i: usize = 0;
    while i < n
        invariant
            n == t@.len(),
            i <= n,
            start == open_segment_start(t@, i as int),
            segments_view(out@) == closed_segments(t@, i as int),
        decreases n - i,
    {
        proof {
            lemma_open_segment_start_bounds(t@, i as int);
        }
        if t.as_str().get_char(i) == '/' {
            if start < i {
                let piece = String::from_str(t.as_str().substring_char(start, i));
                out.push(piece);
                assert(segments_view(out@) =~= closed_segments(t@, i + 1));
            }
            start = i + 1;
        }
        i = i + 1;
    }
    proof {
        lemma_open_segment_start_bounds(t@, n as int);
    }
    if start < n {
        let piece = String::from_str(t.as_str().substring_char(start, n));
        out.push(piece);
    }
    assert(segments_view(out@) =~= template_segments(t@));
    out
}


/// A bare file: its name is the matched token alone, or the token after `_`
/// or after `_.`.
pub open spec fn is_bare(name: Seq<char>, token: Seq<char>) -> bool {
    name == token || name == seq!['_'] + token || name == seq!['_', '.'] + token
}

/// The name a bare file takes from its parent directory: the directory name,
/// a `.` unless the token already begins with one, then the token.
pub open spec fn name_from_parent(parent: Seq<char>, token: Seq<char>) -> Seq<char> {
    if token.len() > 0 && token[0] == '.' {
        parent + token
    } else {
        parent + seq!['.'] + token
    }
}

/// Destination of the file at `rel` (directories, then the file name) once
/// `token` matched it and sent it under `template`. A bare file is named after
/// its parent directory and placed one level higher; it has no destination
/// without that parent directory. A path without a file name has none either.
pub open spec fn place(rel: Seq<Seq<char>>, token: Seq<char>, template: Seq<char>) -> Option<
    Seq<Seq<char>>,
> {
    if rel.len() == 0 {
        None
    } else if is_bare(rel.last(), token) {
        if rel.len() < 2 {
            None
        } else {
            Some(
                template_segments(template) + rel.take(rel.len() - 2) + seq![
                    name_from_parent(rel[rel.len() - 2], token),
                ],
            )
        }
    } else {
        Some(template_segments(template) + rel)
    }
}

/// An optional list of strings, as an optional sequence of character sequences.
pub open spec fn path_view(r: Option<Vec<String>>) -> Option<Seq<Seq<char>>> {
    match r {
        Some(v) => Some(segments_view(v@)),
        None => None,
    }
}

/// Whether `name` starts with `prefix` and continues with exactly `token`.
fn is_prefixed(name: &String, prefix: &str, token: &String) -> (r: bool)
    ensures
        r == (name@ == prefix@ + token@),
{
    let n = name.as_str().unicode_len();
    let p = prefix.unicode_len();
    let m = token.as_str().unicode_len();
    if n < p || n - p != m {
        proof {
            if name@ == prefix@ + token@ {
                assert(name@.len() == prefix@.len() + token@.len());
            }
        }
        return false;
    }
    let mut i: usize = 0;
    while i < p
        invariant
            n == name@.len(),
            p == prefix@.len(),
            m == token@.len(),
            n == p + m,
            i <= p,
            forall|k: int| 0 <= k < i ==> name@[k] == prefix@[k],
        decreases p - i,
    {
        if name.as_str().get_char(i) != prefix.get_char(i) {
            assert((prefix@ + token@)[i as int] == prefix@[i as int]);
            return false;
        }
        i = i + 1;
    }
    let tail = str_ends_with(name.as_str(), token.as_str());
    proof {
        if tail {
            assert(name@ =~= prefix@ + token@) by {
                assert forall|k: int| 0 <= k < n implies name@[k] == (prefix@ + token@)[k] by {
                    if k >= p {
                        assert(name@.subrange(p as int, n as int)[k - p] == token@[k - p]);
                    }
                }
            }
        } else if name@ == prefix@ + token@ {
            assert(name@.subrange(p as int, n as int) =~= token@);
        }
    }
    tail
}

/// Whether `name` is a bare file for `token`.
pub fn bare_name(name: &String, token: &String) -> (r: bool)
    ensures
        r == is_bare(name@, token@),
{
    proof {
        reveal_strlit("_");
        reveal_strlit("_.");
        assert("_"@ =~= seq!['_']);
        assert("_."@ =~= seq!['_', '.']);
    }
    *name == *token || is_prefixed(name, "_", token) || is_prefixed(name, "_.", token)
}

/// Destination of the file at `rel` once `token` matched it and sent it under
/// `template`.
pub fn place_file(rel: &Vec<String>, token: &String, template: &String) -> (r: Option<Vec<String>>)
    ensures
        path_view(r) == place(segments_view(rel@), token@, template@),
{
    let n = rel.len();
    if n == 0 {
        return None;
    }
    let bare = bare_name(&rel[n - 1], token);
    if bare && n < 2 {
        return None;
    }
    let mut out = split_template(template);
    let keep: usize = if bare { n - 2 } else { n };
    let ghost base = out@;
    let mut i: usize = 0;
    while i < keep
        invariant
            keep <= n == rel@.len(),
            i <= keep,
            out@.len() == base.len() + i,
            forall|k: int| 0 <= k < base.len() ==> out@[k] == base[k],
            forall|k: int| 0 <= k < i ==> out@[base.len() + k] == rel@[k],
        decreases keep - i,
    {
        out.push(rel[i].clone());
        i = i + 1;
    }
    if bare {
        let mut last = rel[n - 2].clone();
        if token.as_str().unicode_len() > 0 && token.as_str().get_char(0) == '.' {
            last.append(token.as_str());
        } else {
            last.append(".");
            last.append(token.as_str());
        }
        proof {
            reveal_strlit(".");
            assert("."@ =~= seq!['.']);
        }
        out.push(last);
        assert(segments_view(out@) =~= place(segments_view(rel@), token@, template@)->0);
    } else {
        assert(segments_view(out@) =~= place(segments_view(rel@), token@, template@)->0);
    }
    Some(out)
}


/// Destination of the file at `rel` under `rules`: the rule with the longest
/// suffix that ends the file name decides (the earliest among equally long
/// ones); `None` when the path has no file name, no rule matches, or a bare
/// file has no parent directory.
pub open spec fn classify_spec(rel: Seq<Seq<char>>, rules: Seq<Rule>) -> Option<Seq<Seq<char>>> {
    if rel.len() == 0 {
        None
    } else {
        match best_rule(rel.last(), rules) {
            Some(i) => place(rel, rules[i].suffix@, rules[i].template@),
            None => None,
        }
    }
}

/// Destination of the staged file at `rel` (directories relative to the
/// source root, then the file name) under suffix `rules`.
pub fn classify(rel: &Vec<String>, rules: &Vec<Rule>) -> (r: Option<Vec<String>>)
    ensures
        path_view(r) == classify_spec(segments_view(rel@), rules@),
{
    let n = rel.len();
    if n == 0 {
        return None;
    }
    assert(segments_view(rel@).last() == rel@[n - 1]@);
    match find_rule(&rel[n - 1], rules) {
        Some(i) => place_file(rel, &rules[i].suffix, &rules[i].template),
        None => None,
    }
}

/// The characters after the last `.` of `s`, or all of `s` without a `.`.
pub open spec fn after_last_dot(s: Seq<char>) -> Seq<char>
    decreases s.len(),
{
    if s.len() == 0 {
        s
    } else if s.last() == '.' {
        Seq::empty()
    } else {
        after_last_dot(s.drop_last()).push(s.last())
    }
}

/// The extension read from a file name: its last `.`-separated piece, and for
/// `json` the last two joined by `.` (`rc.json`). A name that is `json` alone
/// has none.
pub open spec fn derived_extension(name: Seq<char>) -> Option<Seq<char>> {
    let last = after_last_dot(name);
    if last == seq!['j', 's', 'o', 'n'] {
        if last.len() == name.len() {
            None
        } else {
            Some(after_last_dot(name.take(name.len() - 5)) + seq!['.', 'j', 's', 'o', 'n'])
        }
    } else {
        Some(last)
    }
}

/// Rules as pairs of suffix and destination.
pub open spec fn rule_pairs(rules: Seq<Rule>) -> Seq<(Seq<char>, Seq<char>)> {
    rules.map_values(|r: Rule| (r.suffix@, r.template@))
}

/// The first of the first `n` entries of `table` whose key is exactly `key`.
pub open spec fn first_key_upto(
    key: Seq<char>,
    table: Seq<(Seq<char>, Seq<char>)>,
    n: int,
) -> Option<int>
    decreases n,
{
    if n <= 0 {
        None
    } else {
        match first_key_upto(key, table, n - 1) {
            Some(i) => Some(i),
            None => if table[n - 1].0 == key {
                Some(n - 1)
            } else {
                None
            },
        }
    }
}

/// The first entry of `table` whose key is exactly `key`.
pub open spec fn first_key(key: Seq<char>, table: Seq<(Seq<char>, Seq<char>)>) -> Option<int> {
    first_key_upto(key, table, table.len() as int)
}

/// Destination of the file at `rel` when its derived extension is looked up
/// as an exact key in `table`, a list of (extension, destination) pairs.
pub open spec fn classify_by_extension_spec(
    rel: Seq<Seq<char>>,
    table: Seq<(Seq<char>, Seq<char>)>,
) -> Option<
    Seq<Seq<char>>,
> {
    if rel.len() == 0 {
        None
    } else {
        match derived_extension(rel.last()) {
            Some(e) => match first_key(e, table) {
                Some(i) => place(rel, e, table[i].1),
                None => None,
            },
            None => None,
        }
    }
}

proof fn lemma_after_last_dot(s: Seq<char>)
    ensures
        after_last_dot(s).len() <= s.len(),
        ends_with(s, after_last_dot(s)),
        !after_last_dot(s).contains('.'),
        after_last_dot(s).len() < s.len() ==> s[s.len() - after_last_dot(s).len() - 1] == '.',
    decreases s.len(),
{
    if s.len() > 0 && s.last() != '.' {
        let p = s.drop_last();
        lemma_after_last_dot(p);
        let a = after_last_dot(p);
        assert(s.subrange(s.len() - a.len() - 1, s.len() as int) =~= a.push(s.last())) by {
            assert(p.subrange(p.len() - a.len(), p.len() as int) == a);
        }
        assert(!a.push(s.last()).contains('.')) by {
            if a.push(s.last()).contains('.') {
                let k = choose|k: int| 0 <= k < a.len() + 1 && a.push(s.last())[k] == '.';
                assert(a[k] == '.');
            }
        }
    }
    if s.len() == 0 || s.last() == '.' {
        assert(after_last_dot(s) =~= Seq::<char>::empty());
        assert(s.subrange(s.len() as int, s.len() as int) =~= Seq::<char>::empty());
    }
}

/// Start of the piece after the last `.` within the first `n` characters of `s`.
fn piece_start(s: &str, n: usize) -> (r: usize)
    requires
        n <= s@.len(),
    ensures
        r <= n,
        s@.subrange(r as int, n as int) == after_last_dot(s@.take(n as int)),
{
    let mut j: usize = n;
    while j > 0
        invariant
            j <= n <= s@.len(),
            forall|k: int| j <= k < n ==> s@[k] != '.',
        ensures
            j <= n,
            forall|k: int| j <= k < n ==> s@[k] != '.',
            j == 0 || s@[j - 1] == '.',
        decreases j,
    {
        if s.get_char(j - 1) == '.' {
            break;
        }
        j = j - 1;
    }
    proof {
        lemma_after_last_dot(s@.take(n as int));
        let a = after_last_dot(s@.take(n as int));
        let t = s@.take(n as int);
        assert(t.subrange(t.len() - a.len(), t.len() as int) == a);
        if (n - a.len()) < j {
            assert(a[j - 1 - (n - a.len())] == t[j - 1]);
            assert(t[j - 1] == '.');
            assert(a.contains('.'));
        }
        if (n - a.len()) > j {
            assert(t[t.len() - a.len() - 1] == '.');
        }
        assert(s@.subrange(j as int, n as int) =~= a);
    }
    j
}

/// The extension read from `name`, as `derived_extension` gives it.
pub fn extension_of(name: &String) -> (r: Option<String>)
    ensures
        match r {
            Some(e) => derived_extension(name@) == Some(e@),
            None => derived_extension(name@) is None,
        },
{
    let s = name.as_str();
    let n = s.unicode_len();
    proof {
        assert(name@.take(n as int) =~= name@);
    }
    let start = piece_start(s, n);
    let last = String::from_str(s.substring_char(start, n));
    let json = String::from_str("json");
    proof {
        reveal_strlit("json");
        assert("json"@ =~= seq!['j', 's', 'o', 'n']);
    }
    if last == json {
        if start == 0 {
            return None;
        }
        let m: usize = start - 1;
        proof {
            lemma_after_last_dot(name@);
            assert(name@.take(n - 5) =~= name@.take(m as int));
        }
        let head = piece_start(s, m);
        let mut ext = String::from_str(s.substring_char(head, m));
        ext.append(".json");
        proof {
            reveal_strlit(".json");
            assert(".json"@ =~= seq!['.', 'j', 's', 'o', 'n']);
        }
        Some(ext)
    } else {
        Some(last)
    }
}


/// Index of the first rule whose suffix is exactly `key`.
pub fn find_key(key: &String, rules: &Vec<Rule>) -> (r: Option<usize>)
    ensures
        r matches Some(i) ==> i < rules@.len(),
        index_view(r) == first_key(key@, rule_pairs(rules@)),
{
    let mut k: usize = 0;
    while k < rules.len()
        invariant
            k <= rules@.len(),
            first_key_upto(key@, rule_pairs(rules@), k as int) is None,
        decreases rules@.len() - k,
    {
        if rules[k].suffix == *key {
            proof {
                lemma_first_key_stays(key@, rule_pairs(rules@), k as int + 1, rules@.len() as int);
            }
            return Some(k);
        }
        k = k + 1;
    }
    None
}

proof fn lemma_first_key_stays(key: Seq<char>, table: Seq<(Seq<char>, Seq<char>)>, m: int, n: int)
    requires
        0 < m <= n,
        first_key_upto(key, table, m) == Some(m - 1),
    ensures
        first_key_upto(key, table, n) == Some(m - 1),
    decreases n - m,
{
    if n > m {
        lemma_first_key_stays(key, table, m, n - 1);
    }
}

/// Destination of the file at `rel`, its derived extension looked up as an
/// exact key among `rules`.
pub fn classify_by_extension(rel: &Vec<String>, rules: &Vec<Rule>) -> (r: Option<Vec<String>>)
    ensures
        path_view(r) == classify_by_extension_spec(segments_view(rel@), rule_pairs(rules@)),
{
    let n = rel.len();
    if n == 0 {
        return None;
    }
    assert(segments_view(rel@).last() == rel@[n - 1]@);
    match extension_of(&rel[n - 1]) {
        Some(e) => match find_key(&e, rules) {
            Some(i) => place_file(rel, &e, &rules[i].template),
            None => None,
        },
        None => None,
    }
}

/// The built-in table from extension to destination.
pub open spec fn fixed_table() -> Seq<(Seq<char>, Seq<char>)> {
    seq![
        ("lang"@, "RP/texts"@),
        ("mcfunction"@, "BP/functions"@),
        ("mcstructure"@, "BP/structures"@),
        ("wav"@, "RP/sounds"@),
        ("ogg"@, "RP/sounds"@),
        ("fsb"@, "RP/sounds"@),
        ("mp4"@, "RP/sounds"@),
        ("png"@, "RP/textures"@),
        ("tga"@, "RP/textures"@),
        ("bpac.json"@, "BP/animation_controllers"@),
        ("rpac.json"@, "RP/animation_controllers"@),
        ("bpa.json"@, "BP/animations"@),
        ("rpa.json"@, "RP/animation"@),
        ("bpe.json"@, "BP/entities"@),
        ("rpe.json"@, "RP/entity"@),
        ("bpb.json"@, "BP/blocks"@),
        ("bpi.json"@, "BP/items"@),
        ("i.json"@, "BP/items"@),
        ("rpi.json"@, "RP/item"@),
        ("biome.json"@, "BP/biomes"@),
        ("f.json"@, "BP/features"@),
        ("fr.json"@, "BP/feature_rules"@),
        ("at.json"@, "RP/attachables"@),
        ("fog.json"@, "RP/fogs"@),
        ("geo.json"@, "RP/models/entity"@),
        ("rc.json"@, "RP/render_controllers"@),
        ("sr.json"@, "BP/spawn_rules"@),
        ("p.json"@, "RP/particles"@),
        ("r.json"@, "BP/recipes"@),
        ("lt.json"@, "BP/loot_tables"@),
        ("tt.json"@, "BP/trading"@),
    ]
}

fn table_rule(suffix: &str, template: &str) -> (r: Rule)
    ensures
        r.suffix@ == suffix@,
        r.template@ == template@,
{
    Rule { suffix: String::from_str(suffix), template: String::from_str(template) }
}

/// The built-in table as rules, in table order.
pub fn fixed_rules() -> (r: Vec<Rule>)
    ensures
        rule_pairs(r@) == fixed_table(),
{
    let mut t: Vec<Rule> = Vec::new();
    t.push(table_rule("lang", "RP/texts"));
    t.push(table_rule("mcfunction", "BP/functions"));
    t.push(table_rule("mcstructure", "BP/structures"));
    t.push(table_rule("wav", "RP/sounds"));
    t.push(table_rule("ogg", "RP/sounds"));
    t.push(table_rule("fsb", "RP/sounds"));
    t.push(table_rule("mp4", "RP/sounds"));
    t.push(table_rule("png", "RP/textures"));
    t.push(table_rule("tga", "RP/textures"));
    t.push(table_rule("bpac.json", "BP/animation_controllers"));
    t.push(table_rule("rpac.json", "RP/animation_controllers"));
    t.push(table_rule("bpa.json", "BP/animations"));
    t.push(table_rule("rpa.json", "RP/animation"));
    t.push(table_rule("bpe.json", "BP/entities"));
    t.push(table_rule("rpe.json", "RP/entity"));
    t.push(table_rule("bpb.json", "BP/blocks"));
    t.push(table_rule("bpi.json", "BP/items"));
    t.push(table_rule("i.json", "BP/items"));
    t.push(table_rule("rpi.json", "RP/item"));
    t.push(table_rule("biome.json", "BP/biomes"));
    t.push(table_rule("f.json", "BP/features"));
    t.push(table_rule("fr.json", "BP/feature_rules"));
    t.push(table_rule("at.json", "RP/attachables"));
    t.push(table_rule("fog.json", "RP/fogs"));
    t.push(table_rule("geo.json", "RP/models/entity"));
    t.push(table_rule("rc.json", "RP/render_controllers"));
    t.push(table_rule("sr.json", "BP/spawn_rules"));
    t.push(table_rule("p.json", "RP/particles"));
    t.push(table_rule("r.json", "BP/recipes"));
    t.push(table_rule("lt.json", "BP/loot_tables"));
    t.push(table_rule("tt.json", "BP/trading"));
    assert(rule_pairs(t@) =~= fixed_table());
    t
}

/// Destination of the staged file at `rel` under the built-in table.
pub fn get_target_path(rel: &Vec<String>) -> (r: Option<Vec<String>>)
    ensures
        path_view(r) == classify_by_extension_spec(segments_view(rel@), fixed_table()),
{
    let rules = fixed_rules();
    classify_by_extension(rel, &rules)
}


proof fn lemma_first_key_upto(key: Seq<char>, table: Seq<(Seq<char>, Seq<char>)>, n: int, i: int)
    requires
        0 <= i < n <= table.len(),
        table[i].0 == key,
        forall|j: int| 0 <= j < i ==> table[j].0 != key,
    ensures
        first_key_upto(key, table, n) == Some(i),
    decreases n,
{
    if n > i + 1 {
        lemma_first_key_upto(key, table, n - 1, i);
    } else {
        lemma_first_key_none(key, table, i);
    }
}

proof fn lemma_first_key_none(key: Seq<char>, table: Seq<(Seq<char>, Seq<char>)>, n: int)
    requires
        0 <= n <= table.len(),
        forall|j: int| 0 <= j < n ==> table[j].0 != key,
    ensures
        first_key_upto(key, table, n) is None,
    decreases n,
{
    if n > 0 {
        lemma_first_key_none(key, table, n - 1);
    }
}

/// The two ways of classifying agree: where the suffix rule chosen for a
/// file name is exactly the extension derived from that name, looking that
/// extension up as a key among the same rules gives the same destination.
pub proof fn lemma_variants_agree(rel: Seq<Seq<char>>, rules: Seq<Rule>)
    requires
        rel.len() > 0,
        best_rule(rel.last(), rules) matches Some(i) && derived_extension(rel.last()) == Some(
            rules[i].suffix@,
        ),
    ensures
        classify_spec(rel, rules) == classify_by_extension_spec(rel, rule_pairs(rules)),
{
    lemma_best_rule_longest_first(rel.last(), rules);
    let i = best_rule(rel.last(), rules)->0;
    let e = rules[i].suffix@;
    let table = rule_pairs(rules);
    assert forall|j: int| 0 <= j < i implies table[j].0 != e by {
        if table[j].0 == e {
            assert(rule_matches(rel.last(), rules[j]));
        }
    }
    lemma_first_key_upto(e, table, table.len() as int, i);
}


proof fn lemma_best_rule_upto_pairs(name: Seq<char>, a: Seq<Rule>, b: Seq<Rule>, n: int)
    requires
        0 <= n <= a.len(),
        rule_pairs(a) == rule_pairs(b),
    ensures
        best_rule_upto(name, a, n) == best_rule_upto(name, b, n),
    decreases n,
{
    assert(a.len() == rule_pairs(a).len());
    assert(b.len() == rule_pairs(b).len());
    if n > 0 {
        lemma_best_rule_upto_pairs(name, a, b, n - 1);
        lemma_best_rule_upto(name, a, n - 1);
        assert(rule_pairs(a)[n - 1] == rule_pairs(b)[n - 1]);
        if let Some(i) = best_rule_upto(name, a, n - 1) {
            assert(rule_pairs(a)[i] == rule_pairs(b)[i]);
        }
    }
}

/// Classification is a function of the path and of each rule's suffix and
/// destination, in order, and of nothing else: equal inputs give equal
/// destinations, on every call.
pub proof fn lemma_classify_deterministic(
    rel: Seq<Seq<char>>,
    other_rel: Seq<Seq<char>>,
    rules: Seq<Rule>,
    other_rules: Seq<Rule>,
)
    requires
        rel == other_rel,
        rule_pairs(rules) == rule_pairs(other_rules),
    ensures
        classify_spec(rel, rules) == classify_spec(other_rel, other_rules),
        classify_by_extension_spec(rel, rule_pairs(rules)) == classify_by_extension_spec(
            other_rel,
            rule_pairs(other_rules),
        ),
{
    assert(rules.len() == rule_pairs(rules).len());
    assert(other_rules.len() == rule_pairs(other_rules).len());
    if rel.len() > 0 {
        lemma_best_rule_upto_pairs(rel.last(), rules, other_rules, rules.len() as int);
        lemma_best_rule_longest_first(rel.last(), rules);
        if let Some(i) = best_rule(rel.last(), rules) {
            assert(rule_pairs(rules)[i] == rule_pairs(other_rules)[i]);
        }
    }
}


/// How a rule set is matched against file names.
#[derive(Clone, Copy, Debug, PartialEq, Eq, Structural)]
pub enum Matching {
    /// Rule suffixes are tested against the end of the name, longest first.
    Suffix,
    /// The extension derived from the name is looked up as an exact key.
    Extension,
}

/// Destination of the file at `rel` under `rules`, matched as `matching` says.
pub open spec fn classify_with(rel: Seq<Seq<char>>, rules: Seq<Rule>, matching: Matching) -> Option<
    Seq<Seq<char>>,
> {
    match matching {
        Matching::Suffix => classify_spec(rel, rules),
        Matching::Extension => classify_by_extension_spec(rel, rule_pairs(rules)),
    }
}

/// Destination of the staged file at `rel` under `rules`, matched as
/// `matching` says.
pub fn classify_matching(rel: &Vec<String>, rules: &Vec<Rule>, matching: Matching) -> (r: Option<
    Vec<String>,
>)
    ensures
        path_view(r) == classify_with(segments_view(rel@), rules@, matching),
{
    match matching {
        Matching::Suffix => classify(rel, rules),
        Matching::Extension => classify_by_extension(rel, rules),
    }
}

} // verus!
