//! The registry of built-in commands and how a command-style call is resolved
//! against it.
use vstd::prelude::*;

use crate::text::{join_range, join_spec, str_eq, strings_view};

verus! {

/// Number of entries in the command registry.
pub const KNOWN_COUNT: usize = 125;

/// The `i`-th registered command name.
pub open spec fn known_name(i: usize) -> Seq<char> {
    match i {
        0 => "print"@,
        1 => "echo"@,
        2 => "os"@,
        3 => "read"@,
        4 => "write"@,
        5 => "exists"@,
        6 => "del"@,
        7 => "run"@,
        8 => "sh"@,
        9 => "rm"@,
        10 => "detect_os"@,
        11 => "reboot"@,
        12 => "shutdown"@,
        13 => "run_command"@,
        14 => "install_package"@,
        15 => "create_file"@,
        16 => "read_file"@,
        17 => "edit_file"@,
        18 => "delete_file"@,
        19 => "check_if_exists"@,
        20 => "open_in_browser"@,
        21 => "open_in_firefox"@,
        22 => "open_in_chrome"@,
        23 => "open_in_edge"@,
        24 => "open_in_safari"@,
        25 => "navigate_to"@,
        26 => "open_new_tab"@,
        27 => "switch_tab"@,
        28 => "wait_seconds"@,
        29 => "scroll_down_pixels"@,
        30 => "take_screenshot"@,
        31 => "press_key"@,
        32 => "click_button"@,
        33 => "click_element"@,
        34 => "type_text"@,
        35 => "fill_form"@,
        36 => "login"@,
        37 => "execute_js"@,
        38 => "download_file"@,
        39 => "upload_file"@,
        40 => "ascii_banner"@,
        41 => "ascii_box"@,
        42 => "ascii_pyramid"@,
        43 => "ascii_diamond"@,
        44 => "ascii_border"@,
        45 => "ascii_mirror"@,
        46 => "ascii_table"@,
        47 => "native_crc32"@,
        48 => "native_base64"@,
        49 => "native_sort_ints"@,
        50 => "native_reverse"@,
        51 => "run_c"@,
        52 => "run_cpp"@,
        53 => "sin"@,
        54 => "cos"@,
        55 => "tan"@,
        56 => "asin"@,
        57 => "acos"@,
        58 => "atan"@,
        59 => "atan2"@,
        60 => "sqrt"@,
        61 => "exp"@,
        62 => "log"@,
        63 => "log10"@,
        64 => "log2"@,
        65 => "pow"@,
        66 => "abs"@,
        67 => "floor"@,
        68 => "ceil"@,
        69 => "round"@,
        70 => "min"@,
        71 => "max"@,
        72 => "sum"@,
        73 => "avg"@,
        74 => "radians"@,
        75 => "degrees"@,
        76 => "pi"@,
        77 => "e"@,
        78 => "log_message"@,
        79 => "log_debug"@,
        80 => "log_info"@,
        81 => "log_warn"@,
        82 => "log_error"@,
        83 => "log_level"@,
        84 => "log_to"@,
        85 => "log_history"@,
        86 => "log_filter"@,
        87 => "log_count"@,
        88 => "log_clear"@,
        89 => "len"@,
        90 => "split"@,
        91 => "join"@,
        92 => "contains"@,
        93 => "slice"@,
        94 => "append"@,
        95 => "pop"@,
        96 => "sorted"@,
        97 => "reverse"@,
        98 => "upper"@,
        99 => "lower"@,
        100 => "trim"@,
        101 => "replace"@,
        102 => "map_keys"@,
        103 => "map_values"@,
        104 => "map_set"@,
        105 => "dict"@,
        106 => "json_parse"@,
        107 => "json_stringify"@,
        108 => "now"@,
        109 => "now_ms"@,
        110 => "sleep_ms"@,
        111 => "format_time"@,
        112 => "http_get"@,
        113 => "http_post"@,
        114 => "input"@,
        115 => "listdir"@,
        116 => "mkdir"@,
        117 => "isfile"@,
        118 => "isdir"@,
        119 => "path_join"@,
        120 => "path_basename"@,
        121 => "path_dirname"@,
        122 => "path_ext"@,
        123 => "env_get"@,
        124 => "env_set"@,
        _ => Seq::empty(),
    }
}

/// `name` is exactly a registered command.
pub open spec fn is_known_name(name: Seq<char>) -> bool {
    exists|i: usize| i < KNOWN_COUNT && known_name(i) == name
}

/// `word` is a whole `_`-separated leading part of `name`: `open` for
/// `open_in_browser`, or `name` itself.
pub open spec fn word_prefix_of(word: Seq<char>, name: Seq<char>) -> bool {
    &&& word.len() <= name.len()
    &&& name.subrange(0, word.len() as int) == word
    &&& (name.len() == word.len() || name[word.len() as int] == '_')
}

/// `word` can start a registered command.
pub open spec fn is_known_command_spec(word: Seq<char>) -> bool {
    exists|i: usize| i < KNOWN_COUNT && word_prefix_of(word, known_name(i))
}

/// The `i`-th registered command name.
pub fn known_at(i: usize) -> (r: &'static str)
    requires
        i < KNOWN_COUNT,
    ensures
        r@ == known_name(i),
{
    match i {
        0 => "print",
        1 => "echo",
        2 => "os",
        3 => "read",
        4 => "write",
        5 => "exists",
        6 => "del",
        7 => "run",
        8 => "sh",
        9 => "rm",
        10 => "detect_os",
        11 => "reboot",
        12 => "shutdown",
        13 => "run_command",
        14 => "install_package",
        15 => "create_file",
        16 => "read_file",
        17 => "edit_file",
        18 => "delete_file",
        19 => "check_if_exists",
        20 => "open_in_browser",
        21 => "open_in_firefox",
        22 => "open_in_chrome",
        23 => "open_in_edge",
        24 => "open_in_safari",
        25 => "navigate_to",
        26 => "open_new_tab",
        27 => "switch_tab",
        28 => "wait_seconds",
        29 => "scroll_down_pixels",
        30 => "take_screenshot",
        31 => "press_key",
        32 => "click_button",
        33 => "click_element",
        34 => "type_text",
        35 => "fill_form",
        36 => "login",
        37 => "execute_js",
        38 => "download_file",
        39 => "upload_file",
        40 => "ascii_banner",
        41 => "ascii_box",
        42 => "ascii_pyramid",
        43 => "ascii_diamond",
        44 => "ascii_border",
        45 => "ascii_mirror",
        46 => "ascii_table",
        47 => "native_crc32",
        48 => "native_base64",
        49 => "native_sort_ints",
        50 => "native_reverse",
        51 => "run_c",
        52 => "run_cpp",
        53 => "sin",
        54 => "cos",
        55 => "tan",
        56 => "asin",
        57 => "acos",
        58 => "atan",
        59 => "atan2",
        60 => "sqrt",
        61 => "exp",
        62 => "log",
        63 => "log10",
        64 => "log2",
        65 => "pow",
        66 => "abs",
        67 => "floor",
        68 => "ceil",
        69 => "round",
        70 => "min",
        71 => "max",
        72 => "sum",
        73 => "avg",
        74 => "radians",
        75 => "degrees",
        76 => "pi",
        77 => "e",
        78 => "log_message",
        79 => "log_debug",
        80 => "log_info",
        81 => "log_warn",
        82 => "log_error",
        83 => "log_level",
        84 => "log_to",
        85 => "log_history",
        86 => "log_filter",
        87 => "log_count",
        88 => "log_clear",
        89 => "len",
        90 => "split",
        91 => "join",
        92 => "contains",
        93 => "slice",
        94 => "append",
        95 => "pop",
        96 => "sorted",
        97 => "reverse",
        98 => "upper",
        99 => "lower",
        100 => "trim",
        101 => "replace",
        102 => "map_keys",
        103 => "map_values",
        104 => "map_set",
        105 => "dict",
        106 => "json_parse",
        107 => "json_stringify",
        108 => "now",
        109 => "now_ms",
        110 => "sleep_ms",
        111 => "format_time",
        112 => "http_get",
        113 => "http_post",
        114 => "input",
        115 => "listdir",
        116 => "mkdir",
        117 => "isfile",
        118 => "isdir",
        119 => "path_join",
        120 => "path_basename",
        121 => "path_dirname",
        122 => "path_ext",
        123 => "env_get",
        124 => "env_set",
        _ => "",
    }
}

fn is_word_prefix(word: &str, name: &str) -> (r: bool)
    ensures
        r == word_prefix_of(word@, name@),
{
    let wl = word.unicode_len();
    let nl = name.unicode_len();
    if wl > nl {
        return false;
    }
    let mut k: usize = 0;
    while k < wl
        invariant
            wl == word@.len(),
            nl == name@.len(),
            wl <= nl,
            k <= wl,
            forall|j: int| 0 <= j < k ==> word@[j] == name@[j],
        decreases wl - k,
    {
        if word.get_char(k) != name.get_char(k) {
            assert(name@.subrange(0, wl as int)[k as int] == name@[k as int]);
            return false;
        }
        k += 1;
    }
    assert(name@.subrange(0, wl as int) =~= word@);
    wl == nl || name.get_char(wl) == '_'
}

/// Single-word test used by the parser to tell `name(...)` commands from
/// user-function calls: `word` is a registered command or the first
/// `_`-separated words of one.
pub fn is_known_command(word: &str) -> (r: bool)
    ensures
        r == is_known_command_spec(word@),
{
    let mut i: usize = 0;
    while i < KNOWN_COUNT
        invariant
            i <= KNOWN_COUNT,
            forall|j: usize| j < i ==> !word_prefix_of(word@, known_name(j)),
        decreases KNOWN_COUNT - i,
    {
        if is_word_prefix(word, known_at(i)) {
            return true;
        }
        i += 1;
    }
    false
}

/// Exact registry lookup.
pub fn is_known_name_exec(name: &str) -> (r: bool)
    ensures
        r == is_known_name(name@),
{
    let mut i: usize = 0;
    while i < KNOWN_COUNT
        invariant
            i <= KNOWN_COUNT,
            forall|j: usize| j < i ==> known_name(j) != name@,
        decreases KNOWN_COUNT - i,
    {
        if str_eq(known_at(i), name) {
            return true;
        }
        i += 1;
    }
    false
}


/// A command-call segment whose arguments have been evaluated.
pub struct ResolvedSegment<V> {
    pub words: Vec<String>,
    pub positional: Vec<V>,
    pub named: Vec<(String, V)>,
}

pub open spec fn pairs_view<V>(ps: Seq<(String, V)>) -> Seq<(Seq<char>, V)> {
    ps.map_values(|p: (String, V)| (p.0@, p.1))
}

/// All words of all segments, in order.
pub open spec fn flat_words<V>(segs: Seq<ResolvedSegment<V>>) -> Seq<Seq<char>>
    decreases segs.len(),
{
    if segs.len() == 0 {
        seq![]
    } else {
        flat_words(segs.drop_last()) + strings_view(segs.last().words@)
    }
}

/// The largest `m <= n` whose first `m` words, joined by `_`, name a
/// registered command; 0 if there is none.
pub open spec fn longest_known(ws: Seq<Seq<char>>, n: int) -> int
    decreases n,
{
    if n <= 0 {
        0
    } else if is_known_name(join_spec(ws.take(n), '_')) {
        n
    } else {
        longest_known(ws, n - 1)
    }
}

/// Index of the first segment, from `s` on, whose words reach word number `n`.
pub open spec fn find_seg<V>(segs: Seq<ResolvedSegment<V>>, n: int, s: int) -> int
    decreases segs.len() - s,
{
    if s >= segs.len() || s < 0 {
        s
    } else if flat_words(segs.take(s + 1)).len() >= n {
        s
    } else {
        find_seg(segs, n, s + 1)
    }
}

/// Keyword arguments contributed by a segment after the command name:
/// positional arguments under the segment's joined words, then its named ones.
pub open spec fn later_kwargs<V>(segs: Seq<ResolvedSegment<V>>) -> Seq<(Seq<char>, V)>
    decreases segs.len(),
{
    if segs.len() == 0 {
        seq![]
    } else {
        let seg = segs[0];
        let key = join_spec(strings_view(seg.words@), '_');
        seg.positional@.map_values(|v: V| (key, v)) + pairs_view(seg.named@) + later_kwargs(
            segs.drop_first(),
        )
    }
}

/// Resolution of a command-style call: the longest run of leading words that
/// names a registered command wins; the segment holding its last word gives
/// the positional arguments (or, when the command ends inside that segment,
/// its remaining words name a keyword for them); every later segment becomes a
/// keyword argument named by its words. Keyword arguments are listed as
/// (name, value) pairs in order.
pub open spec fn resolve_spec<V>(segs: Seq<ResolvedSegment<V>>) -> Result<
    (Seq<char>, Seq<V>, Seq<(Seq<char>, V)>),
    Seq<char>,
> {
    let ws = flat_words(segs);
    let n = longest_known(ws, ws.len() as int);
    if segs.len() == 0 {
        Err("empty call"@)
    } else if n == 0 {
        Err("unknown command `"@ + join_spec(ws, '_') + "`"@)
    } else {
        let s = find_seg(segs, n, 0);
        let seg = segs[s];
        let consumed = n - flat_words(segs.take(s)).len();
        let named = pairs_view(seg.named@);
        let rest = later_kwargs(segs.skip(s + 1));
        if consumed == seg.words@.len() {
            Ok((join_spec(ws.take(n), '_'), seg.positional@, named + rest))
        } else {
            let key = join_spec(strings_view(seg.words@).skip(consumed), '_');
            Ok((join_spec(ws.take(n), '_'), seq![], named + seg.positional@.map_values(|v: V| (key, v)) + rest))
        }
    }
}

proof fn lemma_flat_step<V>(segs: Seq<ResolvedSegment<V>>, i: int)
    requires
        0 <= i < segs.len(),
    ensures
        flat_words(segs.take(i + 1)) == flat_words(segs.take(i)) + strings_view(segs[i].words@),
{
    assert(segs.take(i + 1).drop_last() =~= segs.take(i));
}

proof fn lemma_later_step<V>(segs: Seq<ResolvedSegment<V>>)
    requires
        segs.len() > 0,
    ensures
        later_kwargs(segs) == segs[0].positional@.map_values(
            |v: V| (join_spec(strings_view(segs[0].words@), '_'), v),
        ) + pairs_view(segs[0].named@) + later_kwargs(segs.drop_first()),
{
}

/// Appends `(key, v)` for every `v` of `vals`, moving the values.
fn push_keyed<V>(out: &mut Vec<(String, V)>, key: &String, vals: Vec<V>)
    ensures
        pairs_view(final(out)@) == pairs_view(old(out)@) + vals@.map_values(|v: V| (key@, v)),
{
    let ghost start = pairs_view(out@);
    let ghost all = vals@;
    let mut vals = vals;
    let mut taken: usize = 0;
    let n0 = vals.len();
    while vals.len() > 0
        invariant
            n0 == all.len(),
            taken + vals@.len() == all.len(),
            vals@ == all.skip(taken as int),
            pairs_view(out@) == start + all.take(taken as int).map_values(|v: V| (key@, v)),
        decreases vals@.len(),
    {
        let v = vals.remove(0);
        let ghost before = pairs_view(out@);
        out.push((key.clone(), v));
        taken += 1;
        assert(vals@ =~= all.skip(taken as int));
        assert(pairs_view(out@) =~= before.push((key@, v)));
        assert(all.take(taken as int).map_values(|v: V| (key@, v)) =~= all.take(taken - 1).map_values(
            |v: V| (key@, v),
        ).push((key@, v)));
    }
    assert(all.take(all.len() as int) =~= all);
}

/// Appends all pairs, moving them.
fn push_pairs<V>(out: &mut Vec<(String, V)>, pairs: Vec<(String, V)>)
    ensures
        pairs_view(final(out)@) == pairs_view(old(out)@) + pairs_view(pairs@),
{
    let ghost start = pairs_view(out@);
    let ghost all = pairs@;
    let mut pairs = pairs;
    let mut taken: usize = 0;
    let n0 = pairs.len();
    while pairs.len() > 0
        invariant
            n0 == all.len(),
            taken + pairs@.len() == all.len(),
            pairs@ == all.skip(taken as int),
            pairs_view(out@) == start + pairs_view(all.take(taken as int)),
        decreases pairs@.len(),
    {
        let pr = pairs.remove(0);
        let ghost before = pairs_view(out@);
        out.push(pr);
        taken += 1;
        assert(pairs@ =~= all.skip(taken as int));
        assert(pairs_view(out@) =~= before.push((pr.0@, pr.1)));
        assert(pairs_view(all.take(taken as int)) =~= pairs_view(all.take(taken - 1)).push((pr.0@, pr.1)));
    }
    assert(all.take(all.len() as int) =~= all);
}

/// Resolves evaluated call segments into (command name, positional arguments,
/// keyword arguments) as `resolve_spec` describes; the error message names the
/// unknown command.
pub fn resolve_resolved_segments<V>(segments: Vec<ResolvedSegment<V>>) -> (r: Result<
    (String, Vec<V>, Vec<(String, V)>),
    String,
>)
    ensures
        match r {
            Ok((name, pos, kw)) => resolve_spec(segments@) == Ok::<
                (Seq<char>, Seq<V>, Seq<(Seq<char>, V)>),
                Seq<char>,
            >((name@, pos@, pairs_view(kw@))),
            Err(m) => resolve_spec(segments@) == Err::<(Seq<char>, Seq<V>, Seq<(Seq<char>, V)>), Seq<char>>(
                m@,
            ),
        },
{
    if segments.len() == 0 {
        return Err(String::from_str("empty call"));
    }
    let ghost segs = segments@;
    // Flatten the words, remembering where each segment ends.
    let mut all_words: Vec<String> = Vec::new();
    let mut i: usize = 0;
    assert(segs.take(0) =~= Seq::<ResolvedSegment<V>>::empty());
    while i < segments.len()
        invariant
            segs == segments@,
            i <= segs.len(),
            strings_view(all_words@) == flat_words(segs.take(i as int)),
        decreases segs.len() - i,
    {
        proof {
            lemma_flat_step(segs, i as int);
        }
        let mut k: usize = 0;
        let ghost base = strings_view(all_words@);
        while k < segments[i].words.len()
            invariant
                segs == segments@,
                i < segs.len(),
                k <= segs[i as int].words@.len(),
                strings_view(all_words@) == base + strings_view(segs[i as int].words@).take(k as int),
            decreases segs[i as int].words@.len() - k,
        {
            let w = segments[i].words[k].clone();
            assert(w@ == segs[i as int].words@[k as int]@);
            let ghost prev = all_words@;
            all_words.push(w);
            proof {
                let ws_i = strings_view(segs[i as int].words@);
                assert(strings_view(all_words@) =~= strings_view(prev).push(w@));
                assert(ws_i.take(k + 1) =~= ws_i.take(k as int).push(ws_i[k as int]));
            }
            k += 1;
        }
        assert(strings_view(segs[i as int].words@).take(k as int) =~= strings_view(segs[i as int].words@));
        i += 1;
    }
    assert(segs.take(segs.len() as int) =~= segs);
    let ghost ws = flat_words(segs);
    let total = all_words.len();
    // Longest known prefix.
    let mut n = total;
    loop
        invariant
            segs == segments@,
            segs.len() > 0,
            ws == flat_words(segs),
            n <= total,
            total == ws.len(),
            strings_view(all_words@) == ws,
            longest_known(ws, total as int) == longest_known(ws, n as int),
        ensures
            1 <= n <= total,
            longest_known(ws, total as int) == n,
            strings_view(all_words@) == ws,
        decreases n,
    {
        if n == 0 {
            let mut m = String::from_str("unknown command `");
            let j = join_range(&all_words, 0, total, '_');
            proof {
                assert(strings_view(all_words@).subrange(0, total as int) =~= ws);
            }
            m.append(j.as_str());
            m.append("`");
            return Err(m);
        }
        let candidate = join_range(&all_words, 0, n, '_');
        proof {
            assert(strings_view(all_words@).subrange(0, n as int) =~= ws.take(n as int));
        }
        if is_known_name_exec(candidate.as_str()) {
            break;
        }
        n -= 1;
    }
    let name = join_range(&all_words, 0, n, '_');
    proof {
        assert(strings_view(all_words@).subrange(0, n as int) =~= ws.take(n as int));
    }
    // The segment holding word number `n`.
    let mut s: usize = 0;
    let mut before: usize = 0;
    let nseg = segments.len();
    assert(segs.take(0) =~= Seq::<ResolvedSegment<V>>::empty());
    loop
        invariant
            nseg == segs.len(),
            segs == segments@,
            1 <= n <= total,
            total == ws.len(),
            ws == flat_words(segs),
            s < segs.len(),
            before == flat_words(segs.take(s as int)).len(),
            before < n,
            find_seg(segs, n as int, 0) == find_seg(segs, n as int, s as int),
        ensures
            s < segs.len(),
            before == flat_words(segs.take(s as int)).len(),
            before < n <= before + segs[s as int].words@.len(),
            find_seg(segs, n as int, 0) == s,
        decreases segs.len() - s,
    {
        proof {
            lemma_flat_step(segs, s as int);
        }
        let len_s = segments[s].words.len();
        if len_s >= n - before {
            break;
        }
        before += len_s;
        s += 1;
        if s >= nseg {
            proof {
                assert(segs.take(s as int) =~= segs);
            }
            assert(false);
        }
    }
    let consumed = n - before;
    // Take ownership of segment `s` and the ones after it.
    let mut rest = segments;
    let mut dropped: usize = 0;
    while dropped < s
        invariant
            dropped <= s < segs.len(),
            rest@ == segs.skip(dropped as int),
        decreases s - dropped,
    {
        rest.remove(0);
        dropped += 1;
        assert(rest@ =~= segs.skip(dropped as int));
    }
    let seg = rest.remove(0);
    assert(rest@ =~= segs.skip(s + 1));
    let ResolvedSegment { words, positional, named } = seg;
    let mut kwargs: Vec<(String, V)> = Vec::new();
    push_pairs(&mut kwargs, named);
    let pos_out: Vec<V>;
    if consumed == words.len() {
        pos_out = positional;
    } else {
        let key = join_range(&words, consumed, words.len(), '_');
        proof {
            assert(strings_view(words@).subrange(consumed as int, words@.len() as int) =~= strings_view(
                words@,
            ).skip(consumed as int));
        }
        push_keyed(&mut kwargs, &key, positional);
        pos_out = Vec::new();
    }
    let ghost prefix = pairs_view(kwargs@);
    while rest.len() > 0
        invariant
            pairs_view(kwargs@) + later_kwargs(rest@) == prefix + later_kwargs(segs.skip(s + 1)),
        decreases rest@.len(),
    {
        let ghost cur = rest@;
        proof {
            lemma_later_step(cur);
        }
        let ResolvedSegment { words, positional, named } = rest.remove(0);
        assert(rest@ =~= cur.drop_first());
        let key = join_range(&words, 0, words.len(), '_');
        proof {
            assert(strings_view(words@).subrange(0, words@.len() as int) =~= strings_view(words@));
        }
        let ghost k0 = pairs_view(kwargs@);
        push_keyed(&mut kwargs, &key, positional);
        push_pairs(&mut kwargs, named);
        proof {
            assert(pairs_view(kwargs@) + later_kwargs(rest@) =~= k0 + later_kwargs(cur));
        }
    }
    assert(later_kwargs(rest@) =~= Seq::<(Seq<char>, V)>::empty());
    assert(pairs_view(kwargs@) =~= prefix + later_kwargs(segs.skip(s + 1)));
    Ok((name, pos_out, kwargs))
}

/// The command a short alias stands for; other names stand for themselves.
pub open spec fn canonical_spec(name: Seq<char>) -> Seq<char> {
    if name == "os"@ {
        "detect_os"@
    } else if name == "read"@ {
        "read_file"@
    } else if name == "write"@ {
        "create_file"@
    } else if name == "exists"@ {
        "check_if_exists"@
    } else if name == "del"@ || name == "rm"@ {
        "delete_file"@
    } else if name == "run"@ || name == "sh"@ {
        "run_command"@
    } else if name == "echo"@ {
        "print"@
    } else {
        name
    }
}

/// Rewrites a short alias (`os`, `read`, `write`, `exists`, `del`/`rm`,
/// `run`/`sh`, `echo`) to the command it stands for.
pub fn canonical_command(name: &str) -> (r: String)
    ensures
        r@ == canonical_spec(name@),
{
    let c = if str_eq(name, "os") {
        "detect_os"
    } else if str_eq(name, "read") {
        "read_file"
    } else if str_eq(name, "write") {
        "create_file"
    } else if str_eq(name, "exists") {
        "check_if_exists"
    } else if str_eq(name, "del") || str_eq(name, "rm") {
        "delete_file"
    } else if str_eq(name, "run") || str_eq(name, "sh") {
        "run_command"
    } else if str_eq(name, "echo") {
        "print"
    } else {
        name
    };
    String::from_str(c)
}

proof fn lemma_longest_known(ws: Seq<Seq<char>>, n: int)
    ensures
        0 <= longest_known(ws, n),
        n >= 0 ==> longest_known(ws, n) <= n,
        longest_known(ws, n) > 0 ==> is_known_name(join_spec(ws.take(longest_known(ws, n)), '_')),
        forall|m: int|
            longest_known(ws, n) < m <= n ==> !is_known_name(#[trigger] join_spec(ws.take(m), '_')),
    decreases n,
{
    if n > 0 && !is_known_name(join_spec(ws.take(n), '_')) {
        lemma_longest_known(ws, n - 1);
    }
}

/// A command-style call resolves to the longest run of its leading words
/// that names a registered command: that run is registered, and no longer
/// run of leading words is.
pub proof fn law_resolution_takes_longest_known_prefix<V>(segs: Seq<ResolvedSegment<V>>)
    requires
        resolve_spec(segs) is Ok,
    ensures
        ({
            let ws = flat_words(segs);
            let n = longest_known(ws, ws.len() as int);
            &&& 0 < n <= ws.len()
            &&& resolve_spec(segs)->Ok_0.0 == join_spec(ws.take(n), '_')
            &&& is_known_name(join_spec(ws.take(n), '_'))
            &&& forall|m: int| n < m <= ws.len() ==> !is_known_name(#[trigger] join_spec(ws.take(m), '_'))
        }),
{
    let ws = flat_words(segs);
    lemma_longest_known(ws, ws.len() as int);
}

/// A call whose leading words name no registered command is refused with
/// an error that names the words it tried.
pub proof fn law_unknown_command_is_refused<V>(segs: Seq<ResolvedSegment<V>>)
    requires
        segs.len() > 0,
        forall|m: int|
            0 < m <= flat_words(segs).len() ==> !is_known_name(
                #[trigger] join_spec(flat_words(segs).take(m), '_'),
            ),
    ensures
        resolve_spec(segs) == Err::<(Seq<char>, Seq<V>, Seq<(Seq<char>, V)>), Seq<char>>(
            "unknown command `"@ + join_spec(flat_words(segs), '_') + "`"@,
        ),
{
    let ws = flat_words(segs);
    lemma_longest_known(ws, ws.len() as int);
}

/// Each short alias stands for the command it is named after: `os` for
/// `detect_os`, `read` for `read_file`, `write` for `create_file`, `exists`
/// for `check_if_exists`, `del` and `rm` for `delete_file`, `run` and `sh`
/// for `run_command`, `echo` for `print`. A name that is no alias stands for
/// itself, and resolving twice gives what resolving once gives.
pub proof fn law_aliases_name_their_commands(name: Seq<char>)
    ensures
        canonical_spec("os"@) == "detect_os"@,
        canonical_spec("read"@) == "read_file"@,
        canonical_spec("write"@) == "create_file"@,
        canonical_spec("exists"@) == "check_if_exists"@,
        canonical_spec("del"@) == "delete_file"@,
        canonical_spec("rm"@) == "delete_file"@,
        canonical_spec("run"@) == "run_command"@,
        canonical_spec("sh"@) == "run_command"@,
        canonical_spec("echo"@) == "print"@,
        name != "os"@ && name != "read"@ && name != "write"@ && name != "exists"@
            && name != "del"@ && name != "rm"@ && name != "run"@ && name != "sh"@
            && name != "echo"@ ==> canonical_spec(name) == name,
        canonical_spec(canonical_spec(name)) == canonical_spec(name),
{
    reveal_strlit("os");
    reveal_strlit("read");
    reveal_strlit("write");
    reveal_strlit("exists");
    reveal_strlit("del");
    reveal_strlit("rm");
    reveal_strlit("run");
    reveal_strlit("sh");
    reveal_strlit("echo");
    reveal_strlit("detect_os");
    reveal_strlit("read_file");
    reveal_strlit("create_file");
    reveal_strlit("check_if_exists");
    reveal_strlit("delete_file");
    reveal_strlit("run_command");
    reveal_strlit("print");
    assert("os"@.len() == 2 && "rm"@.len() == 2 && "sh"@.len() == 2);
    assert("del"@.len() == 3 && "run"@.len() == 3);
    assert("read"@.len() == 4 && "echo"@.len() == 4);
    assert("write"@.len() == 5 && "print"@.len() == 5 && "exists"@.len() == 6);
    assert("os"@[0] != "rm"@[0] && "os"@[0] != "sh"@[0] && "rm"@[0] != "sh"@[0]);
    assert("del"@[0] != "run"@[0] && "read"@[0] != "echo"@[0]);
    assert("write"@[0] != "print"@[0]);
    assert("detect_os"@.len() == 9 && "read_file"@.len() == 9);
    assert("create_file"@.len() == 11 && "delete_file"@.len() == 11);
    assert("run_command"@.len() == 11 && "check_if_exists"@.len() == 15);
}

/// Every alias is itself a registered command, and resolving a registered
/// name always gives a registered command.
pub proof fn law_aliases_resolve_to_registered_commands(name: Seq<char>)
    ensures
        is_known_name("os"@) && is_known_name("read"@) && is_known_name("write"@) && is_known_name("exists"@),
        is_known_name("del"@) && is_known_name("rm"@) && is_known_name("run"@) && is_known_name("sh"@)
            && is_known_name("echo"@),
        is_known_name(name) ==> is_known_name(canonical_spec(name)),
{
    law_aliases_name_their_commands(name);
    assert(known_name(1usize) == "echo"@ && known_name(2usize) == "os"@ && known_name(3usize) == "read"@);
    assert(known_name(4usize) == "write"@ && known_name(5usize) == "exists"@ && known_name(6usize) == "del"@);
    assert(known_name(7usize) == "run"@ && known_name(8usize) == "sh"@ && known_name(9usize) == "rm"@);
    assert(known_name(0usize) == "print"@ && known_name(10usize) == "detect_os"@);
    assert(known_name(13usize) == "run_command"@ && known_name(15usize) == "create_file"@);
    assert(known_name(16usize) == "read_file"@ && known_name(18usize) == "delete_file"@);
    assert(known_name(19usize) == "check_if_exists"@);
}

} // verus!
