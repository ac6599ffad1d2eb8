//! The decisions of installing Thronglets into agent runtimes: tool-use
//! hooks in the settings of a hook-driven agent, the OpenClaw plugin and the Codex MCP server with its managed
//! block of agent memory. Reading and writing the configuration files and
//! starting processes happen outside; this module decides what is written.

use vstd::prelude::*;

use crate::config::{
    field, find_key, first_key, is_str, is_str_list, json_members_wf, json_parse, json_render_pretty, json_wf, lemma_first_key,
    lemma_json_field_wf, lemma_json_members_replaced, lemma_toml_field_wf, lemma_toml_members_replaced, member,
    names_of, put_field, spec_json_parse, spec_json_render, spec_toml_parse, spec_toml_render, take_field,
    toml_members_wf, toml_parse, toml_render_pretty, toml_wf, Json, Toml,
};
use crate::text::{
    chars_of, occurs_at, concat_str, first_at, first_occurrence, find_chars, has_infix, opt_str_view, str_contains, str_eq,
    string_from_chars, trail_ws, trim_end_str, trim_str, trimmed,
};

verus! {

/// The id of the MCP server entry in the Codex configuration.
pub const CODEX_MCP_SERVER_ID: &'static str = "thronglets";

/// The line that opens the managed block in the Codex agent memory.
pub const CODEX_AGENTS_START: &'static str = "<!-- thronglets:codex:start -->";

/// The line that closes the managed block in the Codex agent memory.
pub const CODEX_AGENTS_END: &'static str = "<!-- thronglets:codex:end -->";

/// The managed block of the Codex agent memory.
pub const CODEX_AGENTS_BLOCK: &'static str = "<!-- thronglets:codex:start -->
## Thronglets

If the `thronglets` MCP server is available in this Codex session:
- Before a high-impact `Edit`, `Write`, `Bash`, or delegated agent step, call `substrate_query` with the current task context.
- After a meaningful tool result, call `trace_record` with the outcome and task context.
- Treat Thronglets output as internal decision guidance. Use it to choose the next step; do not dump raw substrate warnings back to the user.
<!-- thronglets:codex:end -->
";

/// The id of the OpenClaw plugin.
pub const OPENCLAW_PLUGIN_ID: &'static str = "thronglets-ai";

/// What installing the tool-use hooks did.
pub struct ClaudeSetupResult {
    pub settings_path: String,
    pub added_post_hook: bool,
    pub added_pre_hook: bool,
}

/// What installing into OpenClaw did.
pub struct OpenClawSetupResult {
    pub config_path: String,
    pub plugin_dir: String,
    pub created_config: bool,
    pub restarted_gateway: bool,
}

/// What installing into Codex did.
pub struct CodexSetupResult {
    pub config_path: String,
    pub agents_path: String,
    pub created_config: bool,
    pub updated_server: bool,
    pub updated_agents_memory: bool,
}

/// OpenClaw is configured where its directory, its configuration directory
/// or its executable is found.
pub fn should_configure_openclaw(openclaw_dir_exists: bool, config_dir_exists: bool, on_path: bool) -> (b: bool)
    ensures
        b == (openclaw_dir_exists || config_dir_exists || on_path),
{
    openclaw_dir_exists || config_dir_exists || on_path
}

/// Codex is configured where its directory or its executable is found.
pub fn should_configure_codex(codex_dir_exists: bool, on_path: bool) -> (b: bool)
    ensures
        b == (codex_dir_exists || on_path),
{
    codex_dir_exists || on_path
}

/// The agent memory with the managed block in place: a block between the
/// first start marker and the first end marker is replaced; otherwise the
/// block is appended after a blank line, or makes up the whole memory when
/// there is nothing but whitespace.
pub open spec fn agents_text(current: Seq<char>) -> Seq<char> {
    match (first_occurrence(current, CODEX_AGENTS_START@), first_occurrence(current, CODEX_AGENTS_END@)) {
        (Some(s), Some(e)) => current.take(s) + CODEX_AGENTS_BLOCK@ + current.skip(e + CODEX_AGENTS_END@.len()),
        _ => if trimmed(current).len() == 0 {
            CODEX_AGENTS_BLOCK@ + "\n"@
        } else {
            current.take(current.len() - trail_ws(current)) + "\n\n"@ + CODEX_AGENTS_BLOCK@ + "\n"@
        },
    }
}

/// The first end marker does not end before the first start marker, where
/// both occur; the replaced range would otherwise run backwards.
pub open spec fn agents_block_in_order(current: Seq<char>) -> bool {
    match (first_occurrence(current, CODEX_AGENTS_START@), first_occurrence(current, CODEX_AGENTS_END@)) {
        (Some(s), Some(e)) => s <= e + CODEX_AGENTS_END@.len(),
        _ => true,
    }
}

/// The new agent memory, where putting the managed block in place changes
/// it; `None` where it is already in place.
pub fn ensure_codex_agents_block(current: &str) -> (updated: Option<String>)
    requires
        agents_block_in_order(current@),
    ensures
        updated is None <==> agents_text(current@) == current@,
        updated matches Some(u) ==> u@ == agents_text(current@),
{
    let chars = chars_of(current);
    let start_marker = chars_of(CODEX_AGENTS_START);
    let end_marker = chars_of(CODEX_AGENTS_END);
    let found_start = find_chars(chars.as_slice(), start_marker.as_slice());
    let found_end = find_chars(chars.as_slice(), end_marker.as_slice());
    let text = match (found_start, found_end) {
        (Some(s), Some(e)) => {
            assert(first_at(chars@, end_marker@, e as int));
            let n = chars.len();
            let m = end_marker.len();
            assert(e + m <= n);
            let tail_from = e + end_marker.len();
            let head = vstd::slice::slice_subrange(chars.as_slice(), 0, s);
            let tail = vstd::slice::slice_subrange(chars.as_slice(), tail_from, chars.len());
            let with_block = concat_str(string_from_chars(head), CODEX_AGENTS_BLOCK);
            let rest = string_from_chars(tail);
            proof {
                assert(head@ =~= current@.take(s as int));
                assert(tail@ =~= current@.skip(tail_from as int));
            }
            concat_str(with_block, rest.as_str())
        },
        _ => {
            if trim_str(current).is_empty() {
                concat_str(CODEX_AGENTS_BLOCK.to_owned(), "\n")
            } else {
                let kept = trim_end_str(current);
                concat_str(concat_str(concat_str(kept, "\n\n"), CODEX_AGENTS_BLOCK), "\n")
            }
        },
    };
    if str_eq(text.as_str(), current) {
        None
    } else {
        Some(text)
    }
}

/// Why a configuration could not be updated.
#[derive(Debug, Clone, Copy, PartialEq, Eq, Structural)]
pub enum ConfigError {
    /// A value that must hold members holds something else.
    NotAnObject,
    /// The updated configuration could not be rendered.
    Render,
}

/// The elements of `v`, where it is a list.
pub open spec fn arr(v: Json) -> Seq<Json> {
    match v {
        Json::Array(a) => a@,
        _ => Seq::empty(),
    }
}

/// The members of `v`, where it is an object.
pub open spec fn obj(v: Json) -> Seq<(String, Json)> {
    match v {
        Json::Object(fs) => fs@,
        _ => Seq::empty(),
    }
}

pub open spec fn is_array(v: Json) -> bool {
    v is Array
}

pub open spec fn is_object(v: Json) -> bool {
    v is Object
}

/// `v`, where present, and null otherwise.
pub open spec fn or_null(v: Option<Json>) -> Json {
    match v {
        Some(x) => x,
        None => Json::Null,
    }
}

/// A hook command: an object whose `command` is a string containing
/// `fragment`.
pub open spec fn cmd_contains(c: Json, fragment: Seq<char>) -> bool {
    match member(c, "command"@) {
        Json::Str(s) => has_infix(s@, fragment),
        _ => false,
    }
}

/// A hook entry whose `hooks` list holds a command containing `fragment`.
pub open spec fn entry_has_command(e: Json, fragment: Seq<char>) -> bool {
    &&& is_array(member(e, "hooks"@))
    &&& exists|j: int| 0 <= j < arr(member(e, "hooks"@)).len() && cmd_contains(#[trigger] arr(member(e, "hooks"@))[j], fragment)
}

/// Some entry holds a command containing `fragment`.
pub open spec fn has_hook(entries: Seq<Json>, fragment: Seq<char>) -> bool {
    exists|i: int| 0 <= i < entries.len() && entry_has_command(#[trigger] entries[i], fragment)
}

/// How a hook list changes to hold `hook`: a list that already holds a
/// command containing `fragment` stays, any other list gets the hook
/// appended, and a value that is no list becomes the list of the hook.
/// `added` tells whether it changed.
pub open spec fn hooked(old: Json, new: Json, hook: Json, fragment: Seq<char>, added: bool) -> bool {
    if is_array(old) && has_hook(arr(old), fragment) {
        new == old && !added
    } else if is_array(old) {
        added && is_array(new) && arr(new) == arr(old).push(hook)
    } else {
        added && is_array(new) && arr(new) == seq![hook]
    }
}

/// The member `k` of `v`, or `None` where `v` has no such member or is no
/// object.
pub fn get_member<'a>(v: &'a Json, k: &str) -> (r: Option<&'a Json>)
    ensures
        match r {
            Some(x) => member(*v, k@) == *x,
            None => member(*v, k@) == Json::Null,
        },
{
    match v {
        Json::Object(fs) => {
            proof {
                lemma_first_key(fs@, k@);
            }
            match find_key(fs, k) {
                Some(i) => Some(&fs[i].1),
                None => None,
            }
        },
        _ => None,
    }
}

fn entry_has(e: &Json, fragment: &str) -> (b: bool)
    ensures
        b == entry_has_command(*e, fragment@),
{
    match get_member(e, "hooks") {
        Some(Json::Array(cs)) => {
            let mut j: usize = 0;
            while j < cs.len()
                invariant
                    arr(member(*e, "hooks"@)) == cs@,
                    is_array(member(*e, "hooks"@)),
                    j <= cs@.len(),
                    forall|q: int| 0 <= q < j ==> !cmd_contains(#[trigger] cs@[q], fragment@),
                decreases cs@.len() - j,
            {
                match get_member(&cs[j], "command") {
                    Some(Json::Str(c)) => {
                        if str_contains(c.as_str(), fragment) {
                            assert(cmd_contains(cs@[j as int], fragment@));
                            return true;
                        }
                    },
                    _ => {},
                }
                j = j + 1;
            }
            false
        },
        _ => false,
    }
}

/// Whether some entry holds a command containing `fragment`.
pub fn hooks_contain(entries: &Vec<Json>, fragment: &str) -> (b: bool)
    ensures
        b == has_hook(entries@, fragment@),
{
    let mut i: usize = 0;
    while i < entries.len()
        invariant
            i <= entries@.len(),
            forall|q: int| 0 <= q < i ==> !entry_has_command(#[trigger] entries@[q], fragment@),
        decreases entries@.len() - i,
    {
        if entry_has(&entries[i], fragment) {
            return true;
        }
        i = i + 1;
    }
    false
}

/// Puts `hook` into the hook list `target` unless a command containing
/// `command_fragment` is there; the flag tells whether it was added.
pub fn ensure_hook(target: Json, hook: Json, command_fragment: &str) -> (r: (Json, bool))
    ensures
        hooked(target, r.0, hook, command_fragment@, r.1),
        json_wf(target) && json_wf(hook) ==> json_wf(r.0),
{
    let ghost old_t = target;
    match target {
        Json::Array(mut items) => {
            assert(arr(old_t) == items@);
            if hooks_contain(&items, command_fragment) {
                let t = Json::Array(items);
                assert(t == old_t);
                (t, false)
            } else {
                let ghost before = items@;
                let ghost h = hook;
                items.push(hook);
                proof {
                    if json_wf(old_t) && json_wf(h) {
                        assert forall|i: int| 0 <= i < items@.len() implies json_wf(#[trigger] items@[i]) by {
                            if i < before.len() {
                                assert(items@[i] == before[i]);
                            }
                        }
                    }
                }
                (Json::Array(items), true)
            }
        },
        _ => {
            let v = vec![hook];
            assert(v@ =~= seq![hook]);
            (Json::Array(v), true)
        },
    }
}

/// A hook entry: its `matcher`, and a `hooks` list of one command object
/// of type `command` running `command`.
pub open spec fn is_hook_entry(e: Json, matcher: Seq<char>, command: Seq<char>) -> bool {
    let fs = obj(e);
    let hs = arr(fs[1].1);
    let c = obj(hs[0]);
    &&& is_object(e)
    &&& fs.len() == 2
    &&& fs[0].0@ == "matcher"@ && is_str(fs[0].1, matcher)
    &&& fs[1].0@ == "hooks"@ && is_array(fs[1].1) && hs.len() == 1
    &&& is_object(hs[0]) && c.len() == 2
    &&& c[0].0@ == "type"@ && is_str(c[0].1, "command"@)
    &&& c[1].0@ == "command"@ && is_str(c[1].1, command)
}

fn hook_entry(matcher: &str, command: String) -> (e: Json)
    ensures
        is_hook_entry(e, matcher@, command@),
        json_wf(e),
{
    let mut c: Vec<(String, Json)> = Vec::new();
    c.push(("type".to_owned(), Json::Str("command".to_owned())));
    c.push(("command".to_owned(), Json::Str(command)));
    let mut fs: Vec<(String, Json)> = Vec::new();
    fs.push(("matcher".to_owned(), Json::Str(matcher.to_owned())));
    fs.push(("hooks".to_owned(), Json::Array(vec![Json::Object(c)])));
    proof {
        reveal_strlit("type");
        reveal_strlit("command");
        reveal_strlit("matcher");
        reveal_strlit("hooks");
        assert("type"@.len() == 4 && "command"@.len() == 7);
        assert(names_of(c@)[0] != names_of(c@)[1]);
        assert(names_of(c@).no_duplicates());
        assert(json_wf(c@[0].1) && json_wf(c@[1].1));
        assert(json_wf(Json::Object(c)));
        assert(json_wf(fs@[1].1));
        assert("matcher"@.len() == 7 && "hooks"@.len() == 5);
        assert(names_of(fs@)[0] != names_of(fs@)[1]);
        assert(json_wf(fs@[0].1));
    }
    Json::Object(fs)
}

/// The members of a document read as an object: none for no document or
/// null, the object's members, and `None` for any other value.
pub open spec fn members_of(v: Option<Json>) -> Option<Seq<(String, Json)>> {
    match v {
        None => Some(Seq::empty()),
        Some(Json::Null) => Some(Seq::empty()),
        Some(Json::Object(fs)) => Some(fs@),
        Some(_) => None,
    }
}

/// The document in `current`: the parsed text, or none where there is no
/// text or it holds no JSON.
pub open spec fn read_json(current: Option<Seq<char>>) -> Option<Json> {
    match current {
        Some(t) => spec_json_parse(t),
        None => None,
    }
}

/// The settings hold hooks where they can: the document and its `hooks`
/// are each an object or null.
pub open spec fn settings_shape_ok(doc: Option<Json>) -> bool {
    &&& members_of(doc) is Some
    &&& members_of(field(members_of(doc)->0, "hooks"@)) is Some
}

/// `top` are the settings members once both hooks are in place: the
/// `PostToolUse` list holds the hook that runs `bin hook` for every tool,
/// the `PreToolUse` list the one that runs `bin prehook` for `matcher`,
/// each added unless a command containing `thronglets hook` or
/// `thronglets prehook` is there; everything else stays, and no object at
/// any depth has two members of one name.
pub open spec fn settings_updated(
    doc: Option<Json>,
    top: Seq<(String, Json)>,
    bin: Seq<char>,
    matcher: Seq<char>,
    added_post: bool,
    added_pre: bool,
) -> bool {
    let old_top = members_of(doc)->0;
    let old_hooks = members_of(field(old_top, "hooks"@))->0;
    let hooks = field(top, "hooks"@);
    let h = obj(hooks->0);
    let post = field(h, "PostToolUse"@);
    let pre = field(h, "PreToolUse"@);
    &&& json_members_wf(top)
    &&& forall|k: Seq<char>| k != "hooks"@ ==> #[trigger] field(top, k) == field(old_top, k)
    &&& hooks is Some && is_object(hooks->0)
    &&& forall|k: Seq<char>| k != "PostToolUse"@ && k != "PreToolUse"@ ==> #[trigger] field(h, k) == field(old_hooks, k)
    &&& post is Some && pre is Some
    &&& exists|e: Json|
        is_hook_entry(e, ""@, bin + " hook"@) && #[trigger] hooked(
            or_null(field(old_hooks, "PostToolUse"@)),
            post->0,
            e,
            "thronglets hook"@,
            added_post,
        )
    &&& exists|e: Json|
        is_hook_entry(e, matcher, bin + " prehook"@) && #[trigger] hooked(
            or_null(field(old_hooks, "PreToolUse"@)),
            pre->0,
            e,
            "thronglets prehook"@,
            added_pre,
        )
}

/// `u` renders settings members that hold both hooks, updated from `doc`.
pub open spec fn settings_written(doc: Option<Json>, u: SettingsUpdate, bin: Seq<char>, matcher: Seq<char>) -> bool {
    exists|top: Vec<(String, Json)>|
        u.content@ == spec_json_render(Json::Object(top)) && #[trigger] settings_updated(
            doc,
            top@,
            bin,
            matcher,
            u.added_post_hook,
            u.added_pre_hook,
        )
}

/// The new agent settings text and which hooks were added.
pub struct SettingsUpdate {
    pub content: String,
    pub added_post_hook: bool,
    pub added_pre_hook: bool,
}

proof fn lemma_hook_keys_differ()
    ensures
        "PostToolUse"@ != "PreToolUse"@,
{
    reveal_strlit("PostToolUse");
    reveal_strlit("PreToolUse");
    assert("PostToolUse"@[1] != "PreToolUse"@[1]);
}

/// The agent settings with the tool-use hooks of `bin_path` in place, from
/// the current settings text, if any. Text that holds no JSON counts as
/// empty settings; settings or hooks that are neither an object nor null
/// cannot hold the hooks.
pub fn claude_settings_update(current: Option<&str>, bin_path: &str, prehook_matcher: &str) -> (r: Result<
    SettingsUpdate,
    ConfigError,
>)
    ensures
        r is Err <==> !settings_shape_ok(read_json(opt_str_view(current))),
        r matches Err(e) ==> e == ConfigError::NotAnObject,
        r matches Ok(u) ==> settings_written(read_json(opt_str_view(current)), u, bin_path@, prehook_matcher@),
{
    let ghost doc = read_json(opt_str_view(current));
    let parsed = match current {
        Some(t) => json_parse(t),
        None => None,
    };
    let mut top: Vec<(String, Json)> = match parsed {
        None => Vec::new(),
        Some(Json::Null) => Vec::new(),
        Some(Json::Object(fs)) => fs,
        Some(_) => {
            return Err(ConfigError::NotAnObject);
        },
    };
    let ghost old_top = top@;
    assert(members_of(doc) == Some(old_top));
    assert(json_members_wf(old_top));
    let hooks_val = take_field(&mut top, "hooks", Json::Null);
    proof {
        lemma_json_field_wf(old_top, "hooks"@);
        lemma_json_members_replaced(old_top, top@, Json::Null);
    }
    let ghost top1 = top@;
    let mut hooks: Vec<(String, Json)> = match hooks_val {
        None => Vec::new(),
        Some(Json::Null) => Vec::new(),
        Some(Json::Object(h)) => h,
        Some(_) => {
            return Err(ConfigError::NotAnObject);
        },
    };
    let ghost old_hooks = hooks@;
    assert(members_of(field(old_top, "hooks"@)) == Some(old_hooks));
    assert(json_members_wf(old_hooks));
    proof {
        lemma_json_field_wf(old_hooks, "PostToolUse"@);
    }
    let post_cmd = concat_str(bin_path.to_owned(), " hook");
    let post_entry = hook_entry("", post_cmd);
    let pre_cmd = concat_str(bin_path.to_owned(), " prehook");
    let pre_entry = hook_entry(prehook_matcher, pre_cmd);
    let ghost post_e = post_entry;
    let ghost pre_e = pre_entry;
    let ghost h0 = hooks@;
    let post_old = match take_field(&mut hooks, "PostToolUse", Json::Null) {
        Some(v) => v,
        None => Json::Null,
    };
    proof {
        lemma_json_members_replaced(h0, hooks@, Json::Null);
    }
    let (post, added_post) = ensure_hook(post_old, post_entry, "thronglets hook");
    let ghost post_v = post;
    let ghost h1 = hooks@;
    put_field(&mut hooks, "PostToolUse", post);
    proof {
        lemma_json_members_replaced(h1, hooks@, post_v);
        lemma_json_field_wf(hooks@, "PreToolUse"@);
    }
    let ghost h2 = hooks@;
    let pre_old = match take_field(&mut hooks, "PreToolUse", Json::Null) {
        Some(v) => v,
        None => Json::Null,
    };
    proof {
        lemma_json_members_replaced(h2, hooks@, Json::Null);
    }
    let (pre, added_pre) = ensure_hook(pre_old, pre_entry, "thronglets prehook");
    let ghost pre_v = pre;
    let ghost h3 = hooks@;
    put_field(&mut hooks, "PreToolUse", pre);
    proof {
        lemma_json_members_replaced(h3, hooks@, pre_v);
    }
    let ghost new_hooks = hooks@;
    put_field(&mut top, "hooks", Json::Object(hooks));
    proof {
        assert(json_wf(Json::Object(hooks)));
        lemma_json_members_replaced(top1, top@, Json::Object(hooks));
    }
    let ghost top_v = top;
    let doc_out = Json::Object(top);
    let content = json_render_pretty(&doc_out);
    proof {
        lemma_hook_keys_differ();
        assert(field(new_hooks, "PostToolUse"@) == Some(post_v));
        assert(field(new_hooks, "PreToolUse"@) == Some(pre_v));
        assert(hooked(or_null(field(old_hooks, "PostToolUse"@)), post_v, post_e, "thronglets hook"@, added_post));
        assert(hooked(or_null(field(old_hooks, "PreToolUse"@)), pre_v, pre_e, "thronglets prehook"@, added_pre));
        assert(is_hook_entry(post_e, ""@, bin_path@ + " hook"@));
        assert(is_hook_entry(pre_e, prehook_matcher@, bin_path@ + " prehook"@));
        assert(field(top@, "hooks"@) == Some(Json::Object(hooks)));
        assert(obj(Json::Object(hooks)) == new_hooks);
        assert forall|k: Seq<char>| k != "hooks"@ implies #[trigger] field(top@, k) == field(old_top, k) by {}
        assert forall|k: Seq<char>| k != "PostToolUse"@ && k != "PreToolUse"@ implies #[trigger] field(new_hooks, k) == field(old_hooks, k) by {}
        let h = obj(field(top@, "hooks"@)->0);
        assert(h == new_hooks);
        assert(field(h, "PostToolUse"@)->0 == post_v);
        assert(field(h, "PreToolUse"@)->0 == pre_v);
        assert(hooked(or_null(field(old_hooks, "PostToolUse"@)), field(h, "PostToolUse"@)->0, post_e, "thronglets hook"@, added_post));
        assert(hooked(or_null(field(old_hooks, "PreToolUse"@)), field(h, "PreToolUse"@)->0, pre_e, "thronglets prehook"@, added_pre));
        assert(members_of(doc)->0 == old_top);
        assert(members_of(field(old_top, "hooks"@))->0 == old_hooks);
        assert(settings_updated(doc, top@, bin_path@, prehook_matcher@, added_post, added_pre));
        assert(content@ == spec_json_render(Json::Object(top_v)) && settings_updated(doc, top_v@, bin_path@, prehook_matcher@, added_post, added_pre));
        assert(exists|t: Vec<(String, Json)>| content@ == spec_json_render(Json::Object(t)) && #[trigger] settings_updated(doc, t@, bin_path@, prehook_matcher@, added_post, added_pre));
    }
    let u = SettingsUpdate { content, added_post_hook: added_post, added_pre_hook: added_pre };
    proof {
        assert(u.content@ == spec_json_render(Json::Object(top_v)));
        assert(settings_updated(doc, top_v@, bin_path@, prehook_matcher@, u.added_post_hook, u.added_pre_hook));
    }
    assert(settings_written(doc, u, bin_path@, prehook_matcher@));
    Ok(u)
}

/// A command `bin tail` contains `thronglets tail` when `bin` ends with
/// `thronglets`.
proof fn lemma_suffix_infix(bin: Seq<char>, tail: Seq<char>)
    requires
        "thronglets"@.is_suffix_of(bin),
    ensures
        has_infix(bin + tail, "thronglets"@ + tail),
{
    let i = bin.len() - "thronglets"@.len();
    let hay = bin + tail;
    let needle = "thronglets"@ + tail;
    assert(hay.subrange(i, i + needle.len()) =~= needle);
    assert(occurs_at(hay, needle, i));
}

/// A hook list that `hooked` produced for a hook entry whose command
/// contains `fragment` holds such a command.
proof fn lemma_hooked_holds(old: Json, new: Json, e: Json, matcher: Seq<char>, command: Seq<char>, fragment: Seq<char>, added: bool)
    requires
        hooked(old, new, e, fragment, added),
        is_hook_entry(e, matcher, command),
        has_infix(command, fragment),
    ensures
        is_array(new) && has_hook(arr(new), fragment),
{
    reveal_strlit("matcher");
    reveal_strlit("hooks");
    reveal_strlit("type");
    reveal_strlit("command");
    assert("matcher"@.len() == 7 && "hooks"@.len() == 5 && "type"@.len() == 4 && "command"@.len() == 7);
    let fs = obj(e);
    lemma_first_key(fs, "hooks"@);
    assert(first_key(fs, "hooks"@) == 1);
    let hs = arr(fs[1].1);
    let c = obj(hs[0]);
    lemma_first_key(c, "command"@);
    assert(first_key(c, "command"@) == 1);
    assert(member(e, "hooks"@) == fs[1].1);
    assert(member(hs[0], "command"@) == c[1].1);
    assert(cmd_contains(hs[0], fragment));
    assert(cmd_contains(arr(member(e, "hooks"@))[0], fragment));
    assert(entry_has_command(e, fragment));
    if !(is_array(old) && has_hook(arr(old), fragment)) {
        let n = arr(new).len() - 1;
        assert(arr(new)[n] == e);
        assert(entry_has_command(arr(new)[n], fragment));
    }
}

/// Installing the hooks of a binary named `thronglets` into the settings
/// that an install of it wrote adds neither hook and keeps every member:
/// the settings members outside `hooks`, and every member of `hooks`.
pub proof fn lemma_settings_update_idempotent(
    doc: Option<Json>,
    written: Vec<(String, Json)>,
    again: Seq<(String, Json)>,
    bin: Seq<char>,
    matcher: Seq<char>,
    added_post: bool,
    added_pre: bool,
    added_post_again: bool,
    added_pre_again: bool,
)
    requires
        "thronglets"@.is_suffix_of(bin),
        settings_updated(doc, written@, bin, matcher, added_post, added_pre),
        settings_updated(Some(Json::Object(written)), again, bin, matcher, added_post_again, added_pre_again),
    ensures
        !added_post_again && !added_pre_again,
        forall|k: Seq<char>| k != "hooks"@ ==> #[trigger] field(again, k) == field(written@, k),
        has_object(again, "hooks"@) && has_object(written@, "hooks"@),
        forall|k: Seq<char>| #[trigger] field(member_fields(again, "hooks"@), k) == field(member_fields(written@, "hooks"@), k),
{
    let top = written@;
    let h = obj(field(top, "hooks"@)->0);
    let post = field(h, "PostToolUse"@)->0;
    let pre = field(h, "PreToolUse"@)->0;
    let old_top = members_of(doc)->0;
    let old_hooks = members_of(field(old_top, "hooks"@))->0;
    let e1 = choose|e: Json|
        is_hook_entry(e, ""@, bin + " hook"@) && #[trigger] hooked(
            or_null(field(old_hooks, "PostToolUse"@)),
            post,
            e,
            "thronglets hook"@,
            added_post,
        );
    let e2 = choose|e: Json|
        is_hook_entry(e, matcher, bin + " prehook"@) && #[trigger] hooked(
            or_null(field(old_hooks, "PreToolUse"@)),
            pre,
            e,
            "thronglets prehook"@,
            added_pre,
        );
    lemma_suffix_infix(bin, " hook"@);
    lemma_suffix_infix(bin, " prehook"@);
    reveal_strlit("thronglets");
    reveal_strlit(" hook");
    reveal_strlit(" prehook");
    reveal_strlit("thronglets hook");
    reveal_strlit("thronglets prehook");
    assert("thronglets"@ + " hook"@ =~= "thronglets hook"@);
    assert("thronglets"@ + " prehook"@ =~= "thronglets prehook"@);
    lemma_hooked_holds(or_null(field(old_hooks, "PostToolUse"@)), post, e1, ""@, bin + " hook"@, "thronglets hook"@, added_post);
    lemma_hooked_holds(or_null(field(old_hooks, "PreToolUse"@)), pre, e2, matcher, bin + " prehook"@, "thronglets prehook"@, added_pre);
    assert(members_of(Some(Json::Object(written))) == Some(top));
    assert(members_of(field(top, "hooks"@)) == Some(h));
    let h2 = obj(field(again, "hooks"@)->0);
    assert(or_null(field(h, "PostToolUse"@)) == post);
    assert(or_null(field(h, "PreToolUse"@)) == pre);
    let f1 = choose|e: Json|
        is_hook_entry(e, ""@, bin + " hook"@) && #[trigger] hooked(post, field(h2, "PostToolUse"@)->0, e, "thronglets hook"@, added_post_again);
    let f2 = choose|e: Json|
        is_hook_entry(e, matcher, bin + " prehook"@) && #[trigger] hooked(pre, field(h2, "PreToolUse"@)->0, e, "thronglets prehook"@, added_pre_again);
    assert(hooked(post, field(h2, "PostToolUse"@)->0, f1, "thronglets hook"@, added_post_again));
    assert(hooked(pre, field(h2, "PreToolUse"@)->0, f2, "thronglets prehook"@, added_pre_again));
    assert forall|k: Seq<char>| #[trigger] field(member_fields(again, "hooks"@), k) == field(member_fields(top, "hooks"@), k) by {
        assert(member_fields(again, "hooks"@) == h2);
        assert(member_fields(top, "hooks"@) == h);
    }
}

/// The current configuration string `item` is in `v`: a list holding it.
pub open spec fn holds_string(list: Seq<Json>, item: Seq<char>) -> bool {
    exists|j: int| 0 <= j < list.len() && is_str(#[trigger] list[j], item)
}

/// How a list of strings changes to hold `item` once: a list that holds it
/// stays, any other list gets it appended, and a value that is no list
/// becomes the list of the item.
pub open spec fn pushed_unique(old: Json, new: Json, item: Seq<char>) -> bool {
    if is_array(old) && holds_string(arr(old), item) {
        new == old
    } else if is_array(old) {
        is_array(new) && arr(new).len() == arr(old).len() + 1 && arr(new).take(arr(old).len() as int) == arr(old)
            && is_str(arr(new).last(), item)
    } else {
        is_str_list(new, seq![item])
    }
}

/// Puts the string `item` into the list `target` unless it is there.
pub fn push_unique_string(target: Json, item: &str) -> (new: Json)
    ensures
        pushed_unique(target, new, item@),
        json_wf(target) ==> json_wf(new),
{
    let ghost old_t = target;
    match target {
        Json::Array(mut items) => {
            let ghost orig = items@;
            let mut j: usize = 0;
            while j < items.len()
                invariant
                    j <= items@.len(),
                    forall|q: int| 0 <= q < j ==> !is_str(#[trigger] items@[q], item@),
                    items@ == orig,
                    old_t == Json::Array(items),
                    old_t == target,
                decreases items@.len() - j,
            {
                if let Json::Str(s) = &items[j] {
                    if str_eq(s.as_str(), item) {
                        assert(is_str(items@[j as int], item@));
                        assert(arr(old_t) == items@);
                        assert(is_str(arr(old_t)[j as int], item@));
                        assert(holds_string(arr(old_t), item@));
                        return Json::Array(items);
                    }
                }
                j = j + 1;
            }
            let ghost before = items@;
            items.push(Json::Str(item.to_owned()));
            assert(items@.take(before.len() as int) =~= before);
            proof {
                if json_wf(old_t) {
                    assert forall|i: int| 0 <= i < items@.len() implies json_wf(#[trigger] items@[i]) by {
                        if i < before.len() {
                            assert(items@[i] == before[i]);
                        }
                    }
                }
            }
            Json::Array(items)
        },
        _ => {
            let v = vec![Json::Str(item.to_owned())];
            assert(json_wf(v@[0]));
            Json::Array(v)
        },
    }
}

/// The members of `v`, where it is an object; none otherwise, as a value
/// that is made an object starts empty.
fn into_members(v: Json) -> (fs: Vec<(String, Json)>)
    ensures
        fs@ == obj(v),
        json_wf(v) ==> json_members_wf(fs@),
{
    match v {
        Json::Object(fs) => fs,
        _ => Vec::new(),
    }
}

/// Takes out the member `k`, or null where there is none.
fn take_or_null(fs: &mut Vec<(String, Json)>, k: &str) -> (v: Json)
    ensures
        v == or_null(field(old(fs)@, k@)),
        forall|k2: Seq<char>| k2 != k@ ==> #[trigger] field(final(fs)@, k2) == field(old(fs)@, k2),
        json_members_wf(old(fs)@) ==> json_members_wf(final(fs)@) && json_wf(v),
{
    let r = match take_field(fs, k, Json::Null) {
        Some(v) => v,
        None => Json::Null,
    };
    proof {
        if json_members_wf(old(fs)@) {
            lemma_json_field_wf(old(fs)@, k@);
            lemma_json_members_replaced(old(fs)@, fs@, Json::Null);
        }
    }
    r
}

/// Sets the member `k` to `v`, as `put_field` does; well-formed members
/// stay well-formed with a well-formed value.
fn put_json(fs: &mut Vec<(String, Json)>, k: &str, v: Json)
    ensures
        field(final(fs)@, k@) == Some(v),
        forall|k2: Seq<char>| k2 != k@ ==> #[trigger] field(final(fs)@, k2) == field(old(fs)@, k2),
        json_members_wf(old(fs)@) && json_wf(v) ==> json_members_wf(final(fs)@),
{
    let ghost x = v;
    put_field(fs, k, v);
    proof {
        if json_members_wf(old(fs)@) && json_wf(x) {
            lemma_json_members_replaced(old(fs)@, fs@, x);
        }
    }
}

/// The members of the member `k` of the object with members `fs`.
pub open spec fn member_fields(fs: Seq<(String, Json)>, k: Seq<char>) -> Seq<(String, Json)> {
    obj(or_null(field(fs, k)))
}

/// The member `k` is an object.
pub open spec fn has_object(fs: Seq<(String, Json)>, k: Seq<char>) -> bool {
    field(fs, k) is Some && is_object(field(fs, k)->0)
}

/// `c` is the plugin configuration: `binaryPath` and `dataDir`.
pub open spec fn is_plugin_config(c: Json, bin: Seq<char>, data: Seq<char>) -> bool {
    let fs = obj(c);
    &&& is_object(c) && fs.len() == 2
    &&& fs[0].0@ == "binaryPath"@ && is_str(fs[0].1, bin)
    &&& fs[1].0@ == "dataDir"@ && is_str(fs[1].1, data)
}

/// `r` is the install record of the plugin at `dir` in version `version`.
pub open spec fn is_install_record(r: Json, dir: Seq<char>, version: Seq<char>) -> bool {
    let fs = obj(r);
    let id = OPENCLAW_PLUGIN_ID@;
    &&& is_object(r) && fs.len() == 8
    &&& fs[0].0@ == "source"@ && is_str(fs[0].1, "path"@)
    &&& fs[1].0@ == "spec"@ && is_str(fs[1].1, id)
    &&& fs[2].0@ == "sourcePath"@ && is_str(fs[2].1, dir)
    &&& fs[3].0@ == "installPath"@ && is_str(fs[3].1, dir)
    &&& fs[4].0@ == "version"@ && is_str(fs[4].1, version)
    &&& fs[5].0@ == "resolvedName"@ && is_str(fs[5].1, id)
    &&& fs[6].0@ == "resolvedVersion"@ && is_str(fs[6].1, version)
    &&& fs[7].0@ == "resolvedSpec"@ && is_str(fs[7].1, id + "@"@ + version)
}

/// The members of a JSON document read as an object: none where there is
/// none or it is no object.
pub open spec fn root_members(doc: Option<Json>) -> Seq<(String, Json)> {
    match doc {
        Some(v) => obj(v),
        None => Seq::empty(),
    }
}

/// `root` are the OpenClaw configuration members once the plugin is
/// configured: the plugin is allowed and its directory loaded, each once;
/// its entry is enabled and configured with the binary and data directory;
/// its install record is written; everything else stays, and no object at
/// any depth has two members of one name.
pub open spec fn openclaw_updated(
    doc: Option<Json>,
    root: Seq<(String, Json)>,
    dir: Seq<char>,
    bin: Seq<char>,
    data: Seq<char>,
    version: Seq<char>,
) -> bool {
    let id = OPENCLAW_PLUGIN_ID@;
    let old_root = root_members(doc);
    let old_pl = member_fields(old_root, "plugins"@);
    let pl = member_fields(root, "plugins"@);
    let old_load = member_fields(old_pl, "load"@);
    let load = member_fields(pl, "load"@);
    let old_entries = member_fields(old_pl, "entries"@);
    let entries = member_fields(pl, "entries"@);
    let old_entry = member_fields(old_entries, id);
    let entry = member_fields(entries, id);
    let old_installs = member_fields(old_pl, "installs"@);
    let installs = member_fields(pl, "installs"@);
    &&& json_members_wf(root)
    &&& forall|k: Seq<char>| k != "plugins"@ ==> #[trigger] field(root, k) == field(old_root, k)
    &&& has_object(root, "plugins"@)
    &&& forall|k: Seq<char>|
        k != "allow"@ && k != "load"@ && k != "entries"@ && k != "installs"@ ==> #[trigger] field(pl, k) == field(old_pl, k)
    &&& field(pl, "allow"@) is Some && pushed_unique(or_null(field(old_pl, "allow"@)), field(pl, "allow"@)->0, id)
    &&& has_object(pl, "load"@)
    &&& forall|k: Seq<char>| k != "paths"@ ==> #[trigger] field(load, k) == field(old_load, k)
    &&& field(load, "paths"@) is Some && pushed_unique(or_null(field(old_load, "paths"@)), field(load, "paths"@)->0, dir)
    &&& has_object(pl, "entries"@)
    &&& forall|k: Seq<char>| k != id ==> #[trigger] field(entries, k) == field(old_entries, k)
    &&& has_object(entries, id)
    &&& forall|k: Seq<char>| k != "enabled"@ && k != "config"@ ==> #[trigger] field(entry, k) == field(old_entry, k)
    &&& field(entry, "enabled"@) == Some(Json::Bool(true))
    &&& field(entry, "config"@) is Some && is_plugin_config(field(entry, "config"@)->0, bin, data)
    &&& has_object(pl, "installs"@)
    &&& forall|k: Seq<char>| k != id ==> #[trigger] field(installs, k) == field(old_installs, k)
    &&& field(installs, id) is Some && is_install_record(field(installs, id)->0, dir, version)
}

proof fn lemma_openclaw_keys()
    ensures
        "allow"@ != "load"@,
        "allow"@ != "entries"@,
        "allow"@ != "installs"@,
        "load"@ != "entries"@,
        "load"@ != "installs"@,
        "entries"@ != "installs"@,
        "enabled"@ != "config"@,
{
    reveal_strlit("allow");
    reveal_strlit("load");
    reveal_strlit("entries");
    reveal_strlit("installs");
    reveal_strlit("enabled");
    reveal_strlit("config");
    assert("allow"@.len() == 5 && "load"@.len() == 4 && "entries"@.len() == 7 && "installs"@.len() == 8);
    assert("enabled"@.len() == 7 && "config"@.len() == 6);
}

fn str_member(k: &str, v: String) -> (p: (String, Json))
    ensures
        p.0@ == k@,
        is_str(p.1, v@),
{
    (k.to_owned(), Json::Str(v))
}

fn plugin_config(bin_path: &str, data_dir: &str) -> (c: Json)
    ensures
        is_plugin_config(c, bin_path@, data_dir@),
        json_wf(c),
{
    let mut fs: Vec<(String, Json)> = Vec::new();
    fs.push(str_member("binaryPath", bin_path.to_owned()));
    fs.push(str_member("dataDir", data_dir.to_owned()));
    proof {
        reveal_strlit("binaryPath");
        reveal_strlit("dataDir");
        assert("binaryPath"@.len() == 10 && "dataDir"@.len() == 7);
        assert(names_of(fs@)[0] != names_of(fs@)[1]);
        assert(json_wf(fs@[0].1) && json_wf(fs@[1].1));
    }
    Json::Object(fs)
}

fn install_record(plugin_dir: &str, version: &str) -> (r: Json)
    ensures
        is_install_record(r, plugin_dir@, version@),
        json_wf(r),
{
    let mut fs: Vec<(String, Json)> = Vec::new();
    fs.push(str_member("source", "path".to_owned()));
    fs.push(str_member("spec", OPENCLAW_PLUGIN_ID.to_owned()));
    fs.push(str_member("sourcePath", plugin_dir.to_owned()));
    fs.push(str_member("installPath", plugin_dir.to_owned()));
    fs.push(str_member("version", version.to_owned()));
    fs.push(str_member("resolvedName", OPENCLAW_PLUGIN_ID.to_owned()));
    fs.push(str_member("resolvedVersion", version.to_owned()));
    let spec = concat_str(concat_str(OPENCLAW_PLUGIN_ID.to_owned(), "@"), version);
    fs.push(str_member("resolvedSpec", spec));
    proof {
        lemma_install_record_names();
        let n = names_of(fs@);
        assert(n =~= seq![
            "source"@,
            "spec"@,
            "sourcePath"@,
            "installPath"@,
            "version"@,
            "resolvedName"@,
            "resolvedVersion"@,
            "resolvedSpec"@,
        ]);
        assert forall|i: int| 0 <= i < fs@.len() implies json_wf(#[trigger] fs@[i].1) by {
            assert(fs@[i].1 is Str);
        }
    }
    Json::Object(fs)
}

proof fn lemma_install_record_names()
    ensures
        seq![
            "source"@,
            "spec"@,
            "sourcePath"@,
            "installPath"@,
            "version"@,
            "resolvedName"@,
            "resolvedVersion"@,
            "resolvedSpec"@,
        ].no_duplicates(),
{
    reveal_strlit("source");
    reveal_strlit("spec");
    reveal_strlit("sourcePath");
    reveal_strlit("installPath");
    reveal_strlit("version");
    reveal_strlit("resolvedName");
    reveal_strlit("resolvedVersion");
    reveal_strlit("resolvedSpec");
    let s = seq![
        "source"@,
        "spec"@,
        "sourcePath"@,
        "installPath"@,
        "version"@,
        "resolvedName"@,
        "resolvedVersion"@,
        "resolvedSpec"@,
    ];
    assert(s[0].len() == 6 && s[1].len() == 4 && s[2].len() == 10 && s[3].len() == 11);
    assert(s[4].len() == 7 && s[5].len() == 12 && s[6].len() == 15 && s[7].len() == 12);
    assert(s[5][8] != s[7][8]);
    assert forall|i: int, j: int| 0 <= i < s.len() && 0 <= j < s.len() && i != j implies s[i] != s[j] by {
        if i == 5 && j == 7 || i == 7 && j == 5 {
            assert(s[i][8] != s[j][8]);
        } else {
            assert(s[i].len() != s[j].len());
        }
    }
}

/// `content` renders OpenClaw configuration members in which the plugin is
/// configured, updated from `doc`.
pub open spec fn openclaw_written(
    doc: Option<Json>,
    content: Seq<char>,
    dir: Seq<char>,
    bin: Seq<char>,
    data: Seq<char>,
    version: Seq<char>,
) -> bool {
    exists|root: Vec<(String, Json)>|
        content == spec_json_render(Json::Object(root)) && #[trigger] openclaw_updated(doc, root@, dir, bin, data, version)
}

/// The OpenClaw configuration with the plugin at `plugin_dir` allowed,
/// loaded, enabled with `bin_path` and `data_dir`, and recorded as installed
/// in `version`, from the current configuration text, if any. Text that
/// holds no JSON object counts as an empty configuration.
pub fn openclaw_config_update(
    current: Option<&str>,
    plugin_dir: &str,
    bin_path: &str,
    data_dir: &str,
    version: &str,
) -> (content: String)
    ensures
        openclaw_written(read_json(opt_str_view(current)), content@, plugin_dir@, bin_path@, data_dir@, version@),
{
    let ghost doc = read_json(opt_str_view(current));
    let parsed = match current {
        Some(t) => json_parse(t),
        None => None,
    };
    let mut root = match parsed {
        Some(v) => into_members(v),
        None => Vec::new(),
    };
    let ghost old_root = root@;
    assert(old_root == root_members(doc));
    let mut plugins = into_members(take_or_null(&mut root, "plugins"));
    let ghost old_pl = plugins@;
    let allow = push_unique_string(take_or_null(&mut plugins, "allow"), OPENCLAW_PLUGIN_ID);
    let ghost allow_v = allow;
    put_json(&mut plugins, "allow", allow);
    let mut load = into_members(take_or_null(&mut plugins, "load"));
    let ghost old_load = load@;
    let paths = push_unique_string(take_or_null(&mut load, "paths"), plugin_dir);
    let ghost paths_v = paths;
    put_json(&mut load, "paths", paths);
    let ghost load_v = load@;
    put_json(&mut plugins, "load", Json::Object(load));
    let mut entries = into_members(take_or_null(&mut plugins, "entries"));
    let ghost old_entries = entries@;
    let mut entry = into_members(take_or_null(&mut entries, OPENCLAW_PLUGIN_ID));
    let ghost old_entry = entry@;
    put_json(&mut entry, "enabled", Json::Bool(true));
    let config = plugin_config(bin_path, data_dir);
    let ghost config_v = config;
    put_json(&mut entry, "config", config);
    let ghost entry_v = entry@;
    put_json(&mut entries, OPENCLAW_PLUGIN_ID, Json::Object(entry));
    let ghost entries_v = entries@;
    put_json(&mut plugins, "entries", Json::Object(entries));
    let mut installs = into_members(take_or_null(&mut plugins, "installs"));
    let ghost old_installs = installs@;
    let record = install_record(plugin_dir, version);
    let ghost record_v = record;
    put_json(&mut installs, OPENCLAW_PLUGIN_ID, record);
    let ghost installs_v = installs@;
    put_json(&mut plugins, "installs", Json::Object(installs));
    let ghost pl_v = plugins@;
    put_json(&mut root, "plugins", Json::Object(plugins));
    let ghost root_v = root;
    let content = json_render_pretty(&Json::Object(root));
    proof {
        lemma_openclaw_keys();
        let id = OPENCLAW_PLUGIN_ID@;
        assert(member_fields(root_v@, "plugins"@) == pl_v);
        assert(member_fields(old_root, "plugins"@) == old_pl);
        assert(member_fields(pl_v, "load"@) == load_v);
        assert(member_fields(old_pl, "load"@) == old_load);
        assert(member_fields(pl_v, "entries"@) == entries_v);
        assert(member_fields(old_pl, "entries"@) == old_entries);
        assert(member_fields(entries_v, id) == entry_v);
        assert(member_fields(old_entries, id) == old_entry);
        assert(member_fields(pl_v, "installs"@) == installs_v);
        assert(member_fields(old_pl, "installs"@) == old_installs);
        assert(field(pl_v, "allow"@) == Some(allow_v));
        assert(field(load_v, "paths"@) == Some(paths_v));
        assert(field(entry_v, "config"@) == Some(config_v));
        assert(field(installs_v, id) == Some(record_v));
        assert(openclaw_updated(doc, root_v@, plugin_dir@, bin_path@, data_dir@, version@));
    }
    content
}

/// A list that `pushed_unique` produced holds the item.
proof fn lemma_pushed_holds(old: Json, new: Json, item: Seq<char>)
    requires
        pushed_unique(old, new, item),
    ensures
        is_array(new) && holds_string(arr(new), item),
{
    if !(is_array(old) && holds_string(arr(old), item)) {
        let n = arr(new).len() - 1;
        assert(is_str(arr(new)[n], item));
    }
}

/// Configuring the plugin again, with the same arguments, in the
/// configuration that configuring it wrote keeps every member but the
/// plugin's configuration and install record, which are written anew with
/// the same strings.
pub proof fn lemma_openclaw_update_idempotent(
    doc: Option<Json>,
    written: Vec<(String, Json)>,
    again: Seq<(String, Json)>,
    dir: Seq<char>,
    bin: Seq<char>,
    data: Seq<char>,
    version: Seq<char>,
)
    requires
        openclaw_updated(doc, written@, dir, bin, data, version),
        openclaw_updated(Some(Json::Object(written)), again, dir, bin, data, version),
    ensures
        ({
            let id = OPENCLAW_PLUGIN_ID@;
            let pl = member_fields(written@, "plugins"@);
            let pl2 = member_fields(again, "plugins"@);
            let entry = member_fields(member_fields(pl, "entries"@), id);
            let entry2 = member_fields(member_fields(pl2, "entries"@), id);
            &&& forall|k: Seq<char>| k != "plugins"@ ==> #[trigger] field(again, k) == field(written@, k)
            &&& forall|k: Seq<char>|
                k != "load"@ && k != "entries"@ && k != "installs"@ ==> #[trigger] field(pl2, k) == field(pl, k)
            &&& forall|k: Seq<char>|
                #[trigger] field(member_fields(pl2, "load"@), k) == field(member_fields(pl, "load"@), k)
            &&& forall|k: Seq<char>|
                k != id ==> #[trigger] field(member_fields(pl2, "entries"@), k) == field(
                    member_fields(pl, "entries"@),
                    k,
                )
            &&& forall|k: Seq<char>| k != "config"@ ==> #[trigger] field(entry2, k) == field(entry, k)
            &&& is_plugin_config(field(entry2, "config"@)->0, bin, data)
            &&& is_plugin_config(field(entry, "config"@)->0, bin, data)
            &&& forall|k: Seq<char>|
                k != id ==> #[trigger] field(member_fields(pl2, "installs"@), k) == field(
                    member_fields(pl, "installs"@),
                    k,
                )
            &&& is_install_record(field(member_fields(pl2, "installs"@), id)->0, dir, version)
            &&& is_install_record(field(member_fields(pl, "installs"@), id)->0, dir, version)
        }),
{
    lemma_openclaw_keys();
    let id = OPENCLAW_PLUGIN_ID@;
    let root = written@;
    assert(root_members(Some(Json::Object(written))) == root);
    let old_pl = member_fields(root_members(doc), "plugins"@);
    let pl = member_fields(root, "plugins"@);
    let pl2 = member_fields(again, "plugins"@);
    let allow = field(pl, "allow"@)->0;
    lemma_pushed_holds(or_null(field(old_pl, "allow"@)), allow, id);
    assert(or_null(field(pl, "allow"@)) == allow);
    assert(field(pl2, "allow"@) == field(pl, "allow"@));
    let load = member_fields(pl, "load"@);
    let paths = field(load, "paths"@)->0;
    lemma_pushed_holds(or_null(field(member_fields(old_pl, "load"@), "paths"@)), paths, dir);
    assert(or_null(field(load, "paths"@)) == paths);
    let load2 = member_fields(pl2, "load"@);
    assert(field(load2, "paths"@) == field(load, "paths"@));
    assert forall|k: Seq<char>| #[trigger] field(load2, k) == field(load, k) by {}
    let entry = member_fields(member_fields(pl, "entries"@), id);
    let entry2 = member_fields(member_fields(pl2, "entries"@), id);
    assert(field(entry2, "enabled"@) == field(entry, "enabled"@));
    assert forall|k: Seq<char>| k != "config"@ implies #[trigger] field(entry2, k) == field(entry, k) by {}
}

/// Adding the server again, with the same arguments, to the configuration
/// that adding it produced finds the entry there and keeps every member but
/// the command and arguments, which are written anew with the same strings.
pub proof fn lemma_codex_update_idempotent(
    old: Seq<(String, Toml)>,
    table: Seq<(String, Toml)>,
    again: Seq<(String, Toml)>,
    bin: Seq<char>,
    data: Seq<char>,
    created: bool,
    created_again: bool,
)
    requires
        codex_updated(old, table, bin, data, created),
        codex_updated(table, again, bin, data, created_again),
    ensures
        !created_again,
        forall|k: Seq<char>| k != "mcp_servers"@ ==> #[trigger] field(again, k) == field(table, k),
        ({
            let id = CODEX_MCP_SERVER_ID@;
            let mcp = table_at(table, "mcp_servers"@)->0;
            let mcp2 = table_at(again, "mcp_servers"@)->0;
            let server = table_at(mcp, id)->0;
            let server2 = table_at(mcp2, id)->0;
            &&& forall|k: Seq<char>| k != id ==> #[trigger] field(mcp2, k) == field(mcp, k)
            &&& forall|k: Seq<char>| k != "command"@ && k != "args"@ ==> #[trigger] field(server2, k) == field(server, k)
            &&& is_tstr(field(server2, "command"@)->0, bin) && is_tstr(field(server, "command"@)->0, bin)
            &&& is_tstr_list(field(server2, "args"@)->0, seq!["--data-dir"@, data, "mcp"@])
            &&& is_tstr_list(field(server, "args"@)->0, seq!["--data-dir"@, data, "mcp"@])
        }),
{
}

/// The arguments the Codex MCP server entry starts Thronglets with.
pub fn codex_server_args(data_dir: &str) -> (args: Vec<String>)
    ensures
        args@.len() == 3,
        args@[0]@ == "--data-dir"@,
        args@[1]@ == data_dir@,
        args@[2]@ == "mcp"@,
{
    let mut args: Vec<String> = Vec::new();
    args.push("--data-dir".to_owned());
    args.push(data_dir.to_owned());
    args.push("mcp".to_owned());
    args
}

/// The members of `v`, where it is a table.
pub open spec fn tfields(v: Toml) -> Seq<(String, Toml)> {
    match v {
        Toml::Table(fs) => fs@,
        _ => Seq::empty(),
    }
}

/// The members of the member `k`, where there is none or it is a table.
pub open spec fn table_at(fs: Seq<(String, Toml)>, k: Seq<char>) -> Option<Seq<(String, Toml)>> {
    match field(fs, k) {
        None => Some(Seq::empty()),
        Some(Toml::Table(t)) => Some(t@),
        Some(_) => None,
    }
}

/// `v` is the string `s`.
pub open spec fn is_tstr(v: Toml, s: Seq<char>) -> bool {
    match v {
        Toml::Str(x) => x@ == s,
        _ => false,
    }
}

/// `v` is the list of the strings `items`.
pub open spec fn is_tstr_list(v: Toml, items: Seq<Seq<char>>) -> bool {
    match v {
        Toml::Array(a) => a@.len() == items.len() && forall|i: int| 0 <= i < items.len() ==> is_tstr(#[trigger] a@[i], items[i]),
        _ => false,
    }
}

/// The table in `current`: the parsed text, or empty where there is no text
/// or it holds no TOML table.
pub open spec fn read_toml(current: Option<Seq<char>>) -> Seq<(String, Toml)> {
    match current {
        Some(t) => match spec_toml_parse(t) {
            Some(fs) => fs,
            None => Seq::empty(),
        },
        None => Seq::empty(),
    }
}

/// The configuration can hold the server: `mcp_servers` and its entry for
/// Thronglets are each a table or absent.
pub open spec fn codex_shape_ok(table: Seq<(String, Toml)>) -> bool {
    &&& table_at(table, "mcp_servers"@) is Some
    &&& table_at(table_at(table, "mcp_servers"@)->0, CODEX_MCP_SERVER_ID@) is Some
}

/// `table` is the configuration once the server entry runs `bin` with the
/// library's argument list for `data`; everything else stays, and no table
/// at any depth has two members of one name. `created` tells whether the
/// entry is new.
pub open spec fn codex_updated(
    old_table: Seq<(String, Toml)>,
    table: Seq<(String, Toml)>,
    bin: Seq<char>,
    data: Seq<char>,
    created: bool,
) -> bool {
    let id = CODEX_MCP_SERVER_ID@;
    let old_mcp = table_at(old_table, "mcp_servers"@)->0;
    let mcp = table_at(table, "mcp_servers"@)->0;
    let old_server = table_at(old_mcp, id)->0;
    let server = table_at(mcp, id)->0;
    &&& toml_members_wf(table)
    &&& forall|k: Seq<char>| k != "mcp_servers"@ ==> #[trigger] field(table, k) == field(old_table, k)
    &&& field(table, "mcp_servers"@) is Some && field(table, "mcp_servers"@)->0 is Table
    &&& forall|k: Seq<char>| k != id ==> #[trigger] field(mcp, k) == field(old_mcp, k)
    &&& field(mcp, id) is Some && field(mcp, id)->0 is Table
    &&& forall|k: Seq<char>| k != "command"@ && k != "args"@ ==> #[trigger] field(server, k) == field(old_server, k)
    &&& field(server, "command"@) is Some && is_tstr(field(server, "command"@)->0, bin)
    &&& field(server, "args"@) is Some && is_tstr_list(field(server, "args"@)->0, seq!["--data-dir"@, data, "mcp"@])
    &&& created == (field(old_mcp, id) is None)
}

/// The new Codex configuration text and whether the server entry is new.
pub struct CodexUpdate {
    pub content: String,
    pub created_server: bool,
}

/// Whether the server entry is new: as `r` reports it, or, where rendering
/// was refused, as `old` shows it.
pub open spec fn created_in(old: Seq<(String, Toml)>, r: Result<CodexUpdate, ConfigError>) -> bool {
    match r {
        Ok(u) => u.created_server,
        Err(_) => field(table_at(old, "mcp_servers"@)->0, CODEX_MCP_SERVER_ID@) is None,
    }
}

/// `table` updated from `old`, rendered or refused as `r` says.
pub open spec fn codex_rendered(
    old: Seq<(String, Toml)>,
    r: Result<CodexUpdate, ConfigError>,
    bin: Seq<char>,
    data: Seq<char>,
) -> bool {
    exists|table: Vec<(String, Toml)>|
        #[trigger] codex_updated(old, table@, bin, data, created_in(old, r)) && match r {
            Ok(u) => spec_toml_render(table@) == Some(u.content@),
            Err(e) => e == ConfigError::Render && spec_toml_render(table@) is None,
        }
}

proof fn lemma_codex_keys()
    ensures
        "command"@ != "args"@,
{
    reveal_strlit("command");
    reveal_strlit("args");
    assert("command"@.len() == 7 && "args"@.len() == 4);
}

/// The Codex configuration with the Thronglets MCP server running
/// `bin_path` on `data_dir`, from the current configuration text, if any.
/// Text that holds no TOML table counts as an empty configuration; an
/// `mcp_servers` or server entry that is not a table cannot hold the server,
/// and a configuration the crate cannot render is refused.
pub fn codex_config_update(current: Option<&str>, bin_path: &str, data_dir: &str) -> (r: Result<
    CodexUpdate,
    ConfigError,
>)
    ensures
        r == Err::<CodexUpdate, ConfigError>(ConfigError::NotAnObject) <==> !codex_shape_ok(read_toml(opt_str_view(current))),
        codex_shape_ok(read_toml(opt_str_view(current))) ==> codex_rendered(
            read_toml(opt_str_view(current)),
            r,
            bin_path@,
            data_dir@,
        ),
{
    let ghost old = read_toml(opt_str_view(current));
    let mut table: Vec<(String, Toml)> = match current {
        Some(t) => match toml_parse(t) {
            Some(v) => v,
            None => Vec::new(),
        },
        None => Vec::new(),
    };
    assert(table@ == old);
    assert(toml_members_wf(old));
    proof {
        lemma_toml_field_wf(old, "mcp_servers"@);
    }
    let ph = Toml::Str(String::new());
    assert(toml_wf(ph));
    let mut mcp: Vec<(String, Toml)> = match take_field(&mut table, "mcp_servers", ph) {
        None => Vec::new(),
        Some(Toml::Table(fs)) => fs,
        Some(_) => {
            return Err(ConfigError::NotAnObject);
        },
    };
    let ghost old_mcp = mcp@;
    assert(table_at(old, "mcp_servers"@) == Some(old_mcp));
    proof {
        lemma_toml_members_replaced(old, table@, ph);
        lemma_toml_field_wf(old_mcp, CODEX_MCP_SERVER_ID@);
    }
    let ghost table1 = table@;
    let ph2 = Toml::Str(String::new());
    assert(toml_wf(ph2));
    let created = find_key(&mcp, CODEX_MCP_SERVER_ID).is_none();
    proof {
        lemma_first_key(old_mcp, CODEX_MCP_SERVER_ID@);
    }
    let mut server: Vec<(String, Toml)> = match take_field(&mut mcp, CODEX_MCP_SERVER_ID, ph2) {
        None => Vec::new(),
        Some(Toml::Table(fs)) => fs,
        Some(_) => {
            return Err(ConfigError::NotAnObject);
        },
    };
    let ghost old_server = server@;
    assert(table_at(old_mcp, CODEX_MCP_SERVER_ID@) == Some(old_server));
    proof {
        lemma_toml_members_replaced(old_mcp, mcp@, ph2);
    }
    let ghost mcp1 = mcp@;
    let command = Toml::Str(bin_path.to_owned());
    let ghost command_v = command;
    assert(toml_wf(command));
    put_field(&mut server, "command", command);
    proof {
        lemma_toml_members_replaced(old_server, server@, command_v);
    }
    let ghost server1 = server@;
    let names = codex_server_args(data_dir);
    let mut args: Vec<Toml> = Vec::new();
    let mut i: usize = 0;
    while i < names.len()
        invariant
            names@.len() == 3,
            i <= 3,
            args@.len() == i,
            forall|j: int| 0 <= j < i ==> is_tstr(#[trigger] args@[j], names@[j]@),
        decreases 3 - i,
    {
        args.push(Toml::Str(names[i].clone()));
        i = i + 1;
    }
    let ghost args_v = Toml::Array(args);
    assert(is_tstr_list(args_v, seq!["--data-dir"@, data_dir@, "mcp"@]));
    assert forall|j: int| 0 <= j < args@.len() implies toml_wf(#[trigger] args@[j]) by {
        assert(is_tstr(args@[j], names@[j]@));
    }
    assert(toml_wf(args_v));
    put_field(&mut server, "args", Toml::Array(args));
    proof {
        lemma_toml_members_replaced(server1, server@, args_v);
    }
    let ghost server_v = server@;
    assert(toml_wf(Toml::Table(server)));
    put_field(&mut mcp, CODEX_MCP_SERVER_ID, Toml::Table(server));
    proof {
        lemma_toml_members_replaced(mcp1, mcp@, Toml::Table(server));
    }
    let ghost mcp_v = mcp@;
    assert(toml_wf(Toml::Table(mcp)));
    put_field(&mut table, "mcp_servers", Toml::Table(mcp));
    proof {
        lemma_toml_members_replaced(table1, table@, Toml::Table(mcp));
    }
    let ghost table_v = table;
    proof {
        lemma_codex_keys();
        assert(table_at(table_v@, "mcp_servers"@)->0 == mcp_v);
        assert(table_at(mcp_v, CODEX_MCP_SERVER_ID@)->0 == server_v);
        assert(field(server_v, "args"@) == Some(args_v));
        assert(codex_updated(old, table_v@, bin_path@, data_dir@, created));
    }
    assert(created == (field(old_mcp, CODEX_MCP_SERVER_ID@) is None));
    let r = match toml_render_pretty(&table) {
        Some(content) => Ok(CodexUpdate { content, created_server: created }),
        None => Err(ConfigError::Render),
    };
    proof {
        assert(created_in(old, r) == created);
        assert(codex_updated(old, table_v@, bin_path@, data_dir@, created_in(old, r)));
    }
    assert(codex_rendered(old, r, bin_path@, data_dir@));
    r
}

/// `started` is what a call of `spawn` with `start` returned.
pub open spec fn gateway_started<F: Fn(&'static str) -> bool>(spawn: F, started: bool) -> bool {
    exists|b: &'static str| b@ == "start"@ && #[trigger] spawn.ensures((b,), started)
}

/// Restarts the OpenClaw gateway through `spawn`, which starts `openclaw
/// gateway` with the given subcommand and tells whether the process could be
/// started: `restart` first, and `start` where that failed. The result tells
/// whether one of them was started.
pub fn restart_openclaw_gateway<F: Fn(&'static str) -> bool>(spawn: F) -> (started: bool)
    requires
        forall|sub: &'static str| #[trigger] spawn.requires((sub,)),
    ensures
        started ==> exists|sub: &'static str|
            (sub@ == "restart"@ || sub@ == "start"@) && #[trigger] spawn.ensures((sub,), true),
        !started ==> exists|a: &'static str, b: &'static str|
            a@ == "restart"@ && b@ == "start"@ && #[trigger] spawn.ensures((a,), false) && #[trigger] spawn.ensures(
                (b,),
                false,
            ),
        exists|a: &'static str, r: bool|
            a@ == "restart"@ && #[trigger] spawn.ensures((a,), r) && (r ==> started) && (!r ==> gateway_started(
                spawn,
                started,
            )),
{
    let restart = "restart";
    if spawn(restart) {
        return true;
    }
    let start = "start";
    let started = spawn(start);
    started
}

} // verus!
