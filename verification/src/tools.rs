//! Tool bookkeeping: what a tool call produces, the `read_file` tool's
//! arguments and output, and the registry that finds a tool by name.

use vstd::prelude::*;

use crate::prompt::{
    array_member, keys_are, lemma_field_named_at, member, str_member, Json,
};
use crate::text::{push_str, string_of};

verus! {

/// What one tool call produced.
#[derive(Debug, Clone, PartialEq)]
pub struct ToolOutput {
    /// The text of the result.
    pub output: String,
    /// Whether it counts as a failure (a failure is output too: the model must see it).
    pub is_error: bool,
}

} // verus!

verus! {

pub struct ToolOutputView {
    pub output: Seq<char>,
    pub is_error: bool,
}

impl View for ToolOutput {
    type V = ToolOutputView;

    open spec fn view(&self) -> ToolOutputView {
        ToolOutputView { output: self.output@, is_error: self.is_error }
    }
}

/// The output reported when the model names a tool that is not registered.
pub open spec fn unknown_tool_text(name: Seq<char>) -> Seq<char> {
    "未知工具: "@ + name
}

/// The output reported when a tool fails with the given message.
pub open spec fn tool_error_text(message: Seq<char>) -> Seq<char> {
    "工具错误: "@ + message
}

/// What a call of an unregistered tool produces: an error naming the tool.
pub fn unknown_tool_output(name: &str) -> (out: ToolOutput)
    ensures
        out@ == (ToolOutputView { output: unknown_tool_text(name@), is_error: true }),
{
    let mut output = string_of("未知工具: ");
    push_str(&mut output, name);
    ToolOutput { output, is_error: true }
}

/// What a failed tool call produces: an error carrying the failure's message.
pub fn tool_error_output(message: &str) -> (out: ToolOutput)
    ensures
        out@ == (ToolOutputView { output: tool_error_text(message@), is_error: true }),
{
    let mut output = string_of("工具错误: ");
    push_str(&mut output, message);
    ToolOutput { output, is_error: true }
}

} // verus!

verus! {

#[verifier::external_type_specification]
#[verifier::external_body]
pub struct ExPathBuf(std::path::PathBuf);

/// The arguments of `read_file`.
#[derive(Debug)]
pub struct ReadArgs {
    /// The file's path, relative to the working directory.
    pub path: String,
}

/// The schema the model is given for `read_file`: its name, what it does, and
/// its one parameter, a required string `path`; no other members.
pub open spec fn is_read_file_schema(s: Json) -> bool {
    &&& keys_are(s, seq!["name"@, "description"@, "parameters"@])
    &&& str_member(s, "name"@) == Some("read_file"@)
    &&& str_member(s, "description"@) == Some("读取文本文件内容。路径相对于工作目录。"@)
    &&& match member(s, "parameters"@) {
        Some(p) => {
            &&& keys_are(p, seq!["type"@, "properties"@, "required"@])
            &&& str_member(p, "type"@) == Some("object"@)
            &&& match member(p, "properties"@) {
                Some(props) => {
                    &&& keys_are(props, seq!["path"@])
                    &&& match member(props, "path"@) {
                        Some(path) => {
                            &&& keys_are(path, seq!["type"@, "description"@])
                            &&& str_member(path, "type"@) == Some("string"@)
                            &&& str_member(path, "description"@) == Some(
                                "要读取的文件路径（相对 cwd）"@,
                            )
                        },
                        None => false,
                    }
                },
                None => false,
            }
            &&& match array_member(p, "required"@) {
                Some(req) => req.len() == 1 && match req[0] {
                    Json::Str(x) => x@ == "path"@,
                    _ => false,
                },
                None => false,
            }
        },
        None => false,
    }
}

/// The `read_file` tool: lets the model read files (read only: least privilege).
///
/// For now it is a stub that reports `(read <path>)`, so that the whole tool
/// loop (arguments, call, result fed back) runs end to end.
pub struct ReadFileTool {
    /// The root under which every path must resolve.
    cwd: std::sync::Arc<std::path::PathBuf>,
}

impl ReadFileTool {
    /// The root it was made with.
    pub closed spec fn root(&self) -> std::sync::Arc<std::path::PathBuf> {
        self.cwd
    }

    /// A `read_file` tool rooted at `cwd`.
    pub fn new(cwd: std::sync::Arc<std::path::PathBuf>) -> (t: Self)
        ensures
            t.root() == cwd,
    {
        ReadFileTool { cwd }
    }

    /// The root under which it reads.
    pub fn cwd(&self) -> (r: &std::sync::Arc<std::path::PathBuf>)
        ensures
            *r == self.root(),
    {
        &self.cwd
    }

    /// Its name, by which the model calls it.
    pub fn tool_name(&self) -> (n: &'static str)
        ensures
            n@ == "read_file"@,
    {
        "read_file"
    }

    /// The description and parameter schema the model is given.
    pub fn schema(&self) -> (s: Json)
        ensures
            is_read_file_schema(s),
    {
        let path_fields = vec![
            (string_of("type"), Json::Str(string_of("string"))),
            (string_of("description"), Json::Str(string_of("要读取的文件路径（相对 cwd）"))),
        ];
        let ghost pf = path_fields@;
        let prop_fields = vec![(string_of("path"), Json::Object(path_fields))];
        let ghost rf = prop_fields@;
        let required = vec![Json::Str(string_of("path"))];
        let param_fields = vec![
            (string_of("type"), Json::Str(string_of("object"))),
            (string_of("properties"), Json::Object(prop_fields)),
            (string_of("required"), Json::Array(required)),
        ];
        let ghost mf = param_fields@;
        let fields = vec![
            (string_of("name"), Json::Str(string_of("read_file"))),
            (
                string_of("description"),
                Json::Str(string_of("读取文本文件内容。路径相对于工作目录。")),
            ),
            (string_of("parameters"), Json::Object(param_fields)),
        ];
        let ghost sf = fields@;
        proof {
            reveal_strlit("name");
            reveal_strlit("description");
            reveal_strlit("parameters");
            reveal_strlit("type");
            reveal_strlit("properties");
            reveal_strlit("required");
            reveal_strlit("path");
            assert(sf[0].0@ == "name"@ && sf[1].0@ == "description"@);
            assert("name"@.len() == 4 && "description"@.len() == 11 && "parameters"@.len() == 10);
            assert(mf[0].0@ == "type"@ && mf[1].0@ == "properties"@);
            assert("type"@.len() == 4 && "properties"@.len() == 10 && "required"@.len() == 8);
            assert(pf[0].0@ == "type"@);
            lemma_field_named_at(sf, "name"@, 0);
            lemma_field_named_at(sf, "description"@, 1);
            lemma_field_named_at(sf, "parameters"@, 2);
            lemma_field_named_at(mf, "type"@, 0);
            lemma_field_named_at(mf, "properties"@, 1);
            lemma_field_named_at(mf, "required"@, 2);
            lemma_field_named_at(rf, "path"@, 0);
            lemma_field_named_at(pf, "type"@, 0);
            lemma_field_named_at(pf, "description"@, 1);
        }
        Json::Object(fields)
    }

    /// What a call with these arguments reports: `(read <path>)`.
    pub fn output_for(&self, args: &ReadArgs) -> (out: ToolOutput)
        ensures
            out@ == (ToolOutputView { output: "(read "@ + args.path@ + ")"@, is_error: false }),
    {
        let mut output = string_of("(read ");
        push_str(&mut output, args.path.as_str());
        push_str(&mut output, ")");
        ToolOutput { output, is_error: false }
    }
}

/// The tool registered under `name` in a list of entries, if any.
pub open spec fn lookup<T>(entries: Seq<(Seq<char>, T)>, name: Seq<char>) -> Option<T>
    decreases entries.len(),
{
    if entries.len() == 0 {
        None
    } else if entries.last().0 == name {
        Some(entries.last().1)
    } else {
        lookup(entries.drop_last(), name)
    }
}

/// No name is registered twice.
pub open spec fn names_distinct<T>(entries: Seq<(Seq<char>, T)>) -> bool {
    forall|i: int, j: int|
        0 <= i < j < entries.len() ==> #[trigger] entries[i].0 != #[trigger] entries[j].0
}

/// The entries after registering `tool` under `name`: a tool of the same
/// name is replaced in place, else the tool is added at the end.
pub open spec fn registered<T>(entries: Seq<(Seq<char>, T)>, name: Seq<char>, tool: T) -> Seq<
    (Seq<char>, T),
> {
    if exists|i: int| 0 <= i < entries.len() && entries[i].0 == name {
        let i = choose|i: int| 0 <= i < entries.len() && entries[i].0 == name;
        entries.update(i, (name, tool))
    } else {
        entries.push((name, tool))
    }
}

/// The tool registry: every tool under its own name, one tool per name.
pub struct Registry<T> {
    entries: Vec<(String, T)>,
}

impl<T> View for Registry<T> {
    type V = Seq<(Seq<char>, T)>;

    closed spec fn view(&self) -> Seq<(Seq<char>, T)> {
        self.entries@.map_values(|e: (String, T)| (e.0@, e.1))
    }
}

proof fn lemma_lookup_distinct<T>(entries: Seq<(Seq<char>, T)>, name: Seq<char>, i: int)
    requires
        names_distinct(entries),
        0 <= i < entries.len(),
        entries[i].0 == name,
    ensures
        lookup(entries, name) == Some(entries[i].1),
    decreases entries.len(),
{
    if i < entries.len() - 1 {
        assert(entries.last().0 != name);
        lemma_lookup_distinct(entries.drop_last(), name, i);
    }
}

proof fn lemma_lookup_absent<T>(entries: Seq<(Seq<char>, T)>, name: Seq<char>)
    requires
        forall|i: int| 0 <= i < entries.len() ==> entries[i].0 != name,
    ensures
        lookup(entries, name) is None,
    decreases entries.len(),
{
    if entries.len() > 0 {
        assert(entries.last().0 != name);
        lemma_lookup_absent(entries.drop_last(), name);
    }
}

impl<T> Registry<T> {
    /// One tool per name.
    pub open spec fn wf(&self) -> bool {
        names_distinct(self@)
    }

    /// An empty registry.
    pub fn new() -> (r: Self)
        ensures
            r.wf(),
            r@ == Seq::<(Seq<char>, T)>::empty(),
    {
        let r = Registry { entries: Vec::new() };
        assert(r@ =~= Seq::<(Seq<char>, T)>::empty());
        r
    }

    /// Registers `tool` under `name`; a later tool of the same name replaces
    /// the earlier one, and every other name keeps its tool.
    pub fn register(&mut self, name: String, tool: T)
        requires
            old(self).wf(),
        ensures
            final(self).wf(),
            final(self)@ == registered(old(self)@, name@, tool),
            lookup(final(self)@, name@) == Some(tool),
            forall|m: Seq<char>| m != name@ ==> #[trigger] lookup(final(self)@, m) == lookup(old(self)@, m),
            final(self)@.len() == old(self)@.len() + if lookup(old(self)@, name@) is None {
                1int
            } else {
                0int
            },
    {
        let ghost before = self@;
        let ghost nv = name@;
        let n = self.entries.len();
        let mut i: usize = 0;
        while i < n
            invariant
                i <= n == self.entries@.len(),
                self@ == before,
                before == old(self)@,
                names_distinct(before),
                nv == name@,
                forall|j: int| 0 <= j < i ==> self.entries@[j].0@ != name@,
            decreases n - i,
        {
            if self.entries[i].0 == name {
                assert(before[i as int].0 == name@);
                proof {
                    let i0 = choose|k: int| 0 <= k < before.len() && before[k].0 == name@;
                    assert(i0 == i) by {
                        if i0 != i {
                            if i0 < i {
                                assert(before[i0].0 == self.entries@[i0].0@);
                            } else {
                                assert(before[i as int].0 != before[i0].0);
                            }
                        }
                    }
                    assert(registered(before, nv, tool) == before.update(i as int, (nv, tool)));
                }
                self.entries.set(i, (name, tool));
                proof {
                    assert(self@ =~= before.update(i as int, (nv, tool)));
                    lemma_register_then_lookup_all(before, nv, tool);
                }
                return ;
            }
            i = i + 1;
        }
        proof {
            assert forall|k: int| 0 <= k < before.len() implies before[k].0 != nv by {
                assert(before[k].0 == self.entries@[k].0@);
            }
            lemma_lookup_absent(before, nv);
        }
        self.entries.push((name, tool));
        proof {
            assert(self@ =~= before.push((nv, tool)));
            lemma_register_then_lookup_all(before, nv, tool);
        }
    }

    /// The tool registered under `name`, if any.
    pub fn get(&self, name: &str) -> (r: Option<&T>)
        requires
            self.wf(),
        ensures
            match r {
                Some(t) => lookup(self@, name@) == Some(*t),
                None => lookup(self@, name@) is None,
            },
    {
        let key = string_of(name);
        let n = self.entries.len();
        let mut i: usize = 0;
        while i < n
            invariant
                i <= n == self.entries@.len(),
                key@ == name@,
                self.wf(),
                forall|j: int| 0 <= j < i ==> self.entries@[j].0@ != name@,
            decreases n - i,
        {
            if self.entries[i].0 == key {
                proof {
                    assert(self@[i as int].0 == name@);
                    lemma_lookup_distinct(self@, name@, i as int);
                }
                return Some(&self.entries[i].1);
            }
            i = i + 1;
        }
        proof {
            assert forall|k: int| 0 <= k < self@.len() implies self@[k].0 != name@ by {
                assert(self@[k].0 == self.entries@[k].0@);
            }
            lemma_lookup_absent(self@, name@);
        }
        None
    }

    /// The registered names and tools, in registration order.
    pub fn entries(&self) -> (v: &Vec<(String, T)>)
        ensures
            v@.len() == self@.len(),
            forall|i: int|
                0 <= i < v@.len() ==> (#[trigger] v@[i]).0@ == self@[i].0 && v@[i].1 == self@[i].1,
    {
        &self.entries
    }
}

} // verus!

verus! {

proof fn lemma_lookup_update<T>(e: Seq<(Seq<char>, T)>, i: int, x: (Seq<char>, T), other: Seq<
    char,
>)
    requires
        0 <= i < e.len(),
        e[i].0 != other,
        x.0 != other,
    ensures
        lookup(e.update(i, x), other) == lookup(e, other),
    decreases e.len(),
{
    let u = e.update(i, x);
    if i == e.len() - 1 {
        assert(u.drop_last() =~= e.drop_last());
    } else {
        assert(u.last() == e.last());
        assert(u.drop_last() =~= e.drop_last().update(i, x));
        lemma_lookup_update(e.drop_last(), i, x, other);
    }
}

/// What a registry gives back is what was last registered under that name,
/// and registering under one name leaves every other name as it was.
pub proof fn lemma_register_then_lookup<T>(
    entries: Seq<(Seq<char>, T)>,
    name: Seq<char>,
    tool: T,
    other: Seq<char>,
)
    requires
        names_distinct(entries),
    ensures
        names_distinct(registered(entries, name, tool)),
        lookup(registered(entries, name, tool), name) == Some(tool),
        other != name ==> lookup(registered(entries, name, tool), other) == lookup(entries, other),
{
    let e2 = registered(entries, name, tool);
    if exists|i: int| 0 <= i < entries.len() && entries[i].0 == name {
        let i = choose|i: int| 0 <= i < entries.len() && entries[i].0 == name;
        assert(e2 == entries.update(i, (name, tool)));
        assert(names_distinct(e2)) by {
            assert forall|a: int, b: int| 0 <= a < b < e2.len() implies #[trigger] e2[a].0
                != #[trigger] e2[b].0 by {
                if a != i && b != i {
                    assert(e2[a] == entries[a] && e2[b] == entries[b]);
                } else if a == i {
                    assert(entries[b].0 != entries[i].0);
                } else {
                    assert(entries[a].0 != entries[i].0);
                }
            }
        }
        lemma_lookup_distinct(e2, name, i);
        if other != name {
            lemma_lookup_update(entries, i, (name, tool), other);
        }
    } else {
        assert(e2 == entries.push((name, tool)));
        assert(names_distinct(e2)) by {
            assert forall|a: int, b: int| 0 <= a < b < e2.len() implies #[trigger] e2[a].0
                != #[trigger] e2[b].0 by {
                if b < entries.len() {
                    assert(e2[a] == entries[a] && e2[b] == entries[b]);
                } else {
                    assert(e2[a] == entries[a]);
                }
            }
        }
        lemma_lookup_distinct(e2, name, entries.len() as int);
        if other != name {
            assert(e2.drop_last() =~= entries);
        }
    }
}

/// `lemma_register_then_lookup` for every other name at once, with the size.
proof fn lemma_register_then_lookup_all<T>(entries: Seq<(Seq<char>, T)>, name: Seq<char>, tool: T)
    requires
        names_distinct(entries),
    ensures
        names_distinct(registered(entries, name, tool)),
        lookup(registered(entries, name, tool), name) == Some(tool),
        forall|m: Seq<char>| m != name ==> #[trigger] lookup(registered(entries, name, tool), m)
            == lookup(entries, m),
        registered(entries, name, tool).len() == entries.len() + if lookup(entries, name) is None {
            1int
        } else {
            0int
        },
{
    lemma_register_then_lookup(entries, name, tool, name);
    assert forall|m: Seq<char>| m != name implies #[trigger] lookup(registered(entries, name, tool), m)
        == lookup(entries, m) by {
        lemma_register_then_lookup(entries, name, tool, m);
    }
    if exists|i: int| 0 <= i < entries.len() && entries[i].0 == name {
        let i = choose|i: int| 0 <= i < entries.len() && entries[i].0 == name;
        lemma_lookup_distinct(entries, name, i);
    } else {
        assert forall|k: int| 0 <= k < entries.len() implies entries[k].0 != name by {}
        lemma_lookup_absent(entries, name);
    }
}

} // verus!
