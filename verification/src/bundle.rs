//! What a build script extracts from a crate: the tasks it registers, whether its
//! dependencies can be shipped, and which files go into the source bundle.
use vstd::prelude::*;
use vstd::string::*;

use syn::visit::Visit;

use crate::text::{holds, join, joined, same, texts};

verus! {

/// A path written out: its segments joined by `::`.
pub fn path_string(segments: &Vec<String>) -> (r: String)
    ensures
        r@ == joined(texts(segments@), "::"@),
{
    join(segments, "::")
}

/// A method call in a source text.
#[derive(Debug, Clone, PartialEq, Eq)]
pub struct MethodCall {
    /// The method's name.
    pub method: String,
    /// Per argument, the segments of the path it is, if it is one.
    pub arguments: Vec<Option<Vec<String>>>,
    /// The line on which the method's name starts.
    pub line: usize,
    /// The column at which the method's name starts.
    pub column: usize,
}

/// A [`MethodCall`] as a mathematical value.
pub struct CallModel {
    pub method: Seq<char>,
    pub arguments: Seq<Option<Seq<Seq<char>>>>,
    pub line: usize,
    pub column: usize,
}

impl View for MethodCall {
    type V = CallModel;

    open spec fn view(&self) -> CallModel {
        CallModel {
            method: self.method@,
            arguments: Seq::new(
                self.arguments@.len(),
                |i: int|
                    match self.arguments@[i] {
                        Some(segments) => Some(texts(segments@)),
                        None => None,
                    },
            ),
            line: self.line,
            column: self.column,
        }
    }
}

/// Each call in turn as a mathematical value.
pub open spec fn calls(v: Seq<MethodCall>) -> Seq<CallModel> {
    Seq::new(v.len(), |i: int| v[i]@)
}

impl CallModel {
    /// The function the call registers as a task: the path given as the first
    /// argument of `netmap`. Closures and other arguments register nothing.
    pub open spec fn target(self) -> Option<Seq<char>> {
        if self.method == "netmap"@ && self.arguments.len() > 0 {
            match self.arguments[0] {
                Some(segments) => Some(joined(segments, "::"@)),
                None => None,
            }
        } else {
            None
        }
    }
}

/// The function a method call registers as a task.
pub fn netmap_target(call: &MethodCall) -> (r: Option<String>)
    ensures
        match r {
            Some(name) => call@.target() == Some(name@),
            None => call@.target() is None,
        },
{
    if !same(call.method.as_str(), "netmap") || call.arguments.len() == 0 {
        return None;
    }
    match &call.arguments[0] {
        Some(segments) => Some(path_string(segments)),
        None => None,
    }
}

/// Whether call `a` stands before call `b` in the source.
pub open spec fn precedes(a: CallModel, b: CallModel) -> bool {
    a.line < b.line || (a.line == b.line && a.column < b.column)
}

/// How many of the first `n` calls do not stand behind `call`.
pub open spec fn place_for(sorted: Seq<CallModel>, call: CallModel, n: int) -> int
    decreases n,
{
    if n <= 0 {
        0
    } else if precedes(call, sorted[n - 1]) {
        place_for(sorted, call, n - 1)
    } else {
        n
    }
}

/// The first `n` calls in the order in which their names stand in the source.
pub open spec fn placed(found: Seq<CallModel>, n: int) -> Seq<CallModel>
    decreases n,
{
    if n <= 0 {
        Seq::empty()
    } else {
        let before = placed(found, n - 1);
        before.insert(place_for(before, found[n - 1], before.len() as int), found[n - 1])
    }
}

proof fn lemma_place_for(sorted: Seq<CallModel>, call: CallModel, n: int)
    requires
        0 <= n <= sorted.len(),
    ensures
        0 <= place_for(sorted, call, n) <= n,
        place_for(sorted, call, n) > 0 ==> !precedes(
            call,
            sorted[place_for(sorted, call, n) - 1],
        ),
        forall|i: int|
            place_for(sorted, call, n) <= i < n ==> precedes(call, #[trigger] sorted[i]),
    decreases n,
{
    if n > 0 {
        lemma_place_for(sorted, call, n - 1);
    }
}

/// The calls come out in source order: each exactly as often as it was found, and
/// none before one that stands ahead of it.
pub proof fn law_calls_come_in_source_order(found: Seq<CallModel>, n: int)
    requires
        0 <= n <= found.len(),
    ensures
        placed(found, n).len() == n,
        placed(found, n).to_multiset() == found.take(n).to_multiset(),
        forall|i: int, j: int|
            0 <= i < j < n ==> !precedes(
                #[trigger] placed(found, n)[j],
                #[trigger] placed(found, n)[i],
            ),
    decreases n,
{
    if n == 0 {
        assert(placed(found, 0) =~= found.take(0));
    } else {
        law_calls_come_in_source_order(found, n - 1);
        let before = placed(found, n - 1);
        let call = found[n - 1];
        let at = place_for(before, call, before.len() as int);
        lemma_place_for(before, call, before.len() as int);
        let now = before.insert(at, call);
        assert(now.to_multiset() =~= before.to_multiset().insert(call)) by {
            now.to_multiset_ensures();
            assert(now.remove(at) =~= before);
            assert(now[at] == call);
            assert(now.contains(call));
        }
        assert(found.take(n) =~= found.take(n - 1).push(call));
        found.take(n - 1).to_multiset_ensures();
        assert forall|i: int, j: int| 0 <= i < j < n implies !precedes(
            #[trigger] now[j],
            #[trigger] now[i],
        ) by {
            if j < at {
                assert(!precedes(before[j], before[i]));
            } else if j == at {
                if at > 0 && i < at - 1 {
                    assert(!precedes(before[at - 1], before[i]));
                }
            } else if i == at {
                assert(precedes(call, before[j - 1]));
            } else if i < at {
                assert(!precedes(before[j - 1], before[i]));
            } else {
                assert(!precedes(before[j - 1], before[i - 1]));
            }
        }
    }
}

/// Put method calls into the order in which their names stand in the source.
pub fn in_source_order(found: Vec<MethodCall>) -> (r: Vec<MethodCall>)
    ensures
        calls(r@) == placed(calls(found@), found@.len() as int),
        calls(r@).to_multiset() == calls(found@).to_multiset(),
        forall|i: int, j: int|
            0 <= i < j < r@.len() ==> !precedes(
                #[trigger] calls(r@)[j],
                #[trigger] calls(r@)[i],
            ),
{
    let ghost all = calls(found@);
    let mut left: Vec<MethodCall> = found;
    let mut backwards: Vec<MethodCall> = Vec::new();
    while left.len() > 0
        invariant
            left@.len() + backwards@.len() == found@.len(),
            left@ =~= found@.take(left@.len() as int),
            forall|i: int|
                0 <= i < backwards@.len() ==> (#[trigger] backwards@[i]) == found@[found@.len() - 1
                    - i],
        decreases left@.len(),
    {
        let last = left.pop().unwrap();
        backwards.push(last);
    }
    let mut r: Vec<MethodCall> = Vec::new();
    proof {
        assert(calls(r@) =~= placed(all, 0));
    }
    while backwards.len() > 0
        invariant
            all == calls(found@),
            r@.len() + backwards@.len() == found@.len(),
            forall|i: int|
                0 <= i < backwards@.len() ==> (#[trigger] backwards@[i]) == found@[found@.len() - 1
                    - i],
            calls(r@) == placed(all, r@.len() as int),
        decreases backwards@.len(),
    {
        let ghost k = r@.len() as int;
        let ghost before = r@;
        let ghost old_backwards = backwards@;
        let call = backwards.pop().unwrap();
        proof {
            assert(call == old_backwards[old_backwards.len() - 1]);
            assert(all[k] == call@);
        }
        let mut at: usize = r.len();
        while at > 0 && (call.line < r[at - 1].line || (call.line == r[at - 1].line && call.column
            < r[at - 1].column))
            invariant
                r@ == before,
                at <= r@.len(),
                place_for(calls(r@), call@, r@.len() as int) == place_for(
                    calls(r@),
                    call@,
                    at as int,
                ),
            decreases at,
        {
            at -= 1;
        }
        r.insert(at, call);
        proof {
            assert(calls(r@) =~= calls(before).insert(at as int, call@));
        }
    }
    proof {
        law_calls_come_in_source_order(all, all.len() as int);
        assert(all.take(all.len() as int) =~= all);
    }
    r
}

/// What the first `n` calls register, in order.
pub open spec fn targets(calls: Seq<CallModel>, n: int) -> Seq<Seq<char>>
    decreases n,
{
    if n <= 0 {
        Seq::empty()
    } else {
        match calls[n - 1].target() {
            Some(name) => targets(calls, n - 1).push(name),
            None => targets(calls, n - 1),
        }
    }
}

/// The functions that method calls register as tasks, in the order of the calls.
pub fn netmap_targets(found: &Vec<MethodCall>) -> (r: Vec<String>)
    ensures
        texts(r@) == targets(calls(found@), found@.len() as int),
{
    let mut r: Vec<String> = Vec::new();
    let mut i: usize = 0;
    proof {
        assert(texts(r@) =~= Seq::empty());
    }
    while i < found.len()
        invariant
            i <= found@.len(),
            texts(r@) == targets(calls(found@), i as int),
        decreases found@.len() - i,
    {
        assert(calls(found@)[i as int] == found@[i as int]@);
        let ghost before = r@;
        match netmap_target(&found[i]) {
            Some(name) => {
                r.push(name);
                proof {
                    assert(texts(r@) =~= texts(before).push(name@));
                }
            },
            None => {},
        }
        i += 1;
    }
    r
}

/// A method call as `syn` holds it; only its walk looks inside.
#[verifier::external_type_specification]
#[verifier::external_body]
pub struct ExExprMethodCall(syn::ExprMethodCall);

/// Collects the method calls of a syntax tree.
struct CallFinder {
    calls: Vec<MethodCall>,
}

impl<'ast> syn::visit::Visit<'ast> for CallFinder {
    /// The hook of `syn::visit::Visit` for method calls: note the call with the place
    /// of its name, and let `syn::visit::visit_expr_method_call` walk on through its
    /// parts. Nothing is claimed of one step; what the whole walk gives is
    /// [`source_calls`].
    #[verifier::external_body]
    fn visit_expr_method_call(&mut self, call: &'ast syn::ExprMethodCall) {
        let arguments = call.args.iter().map(|it| match it {
            syn::Expr::Path(arg) => {
                Some(arg.path.segments.iter().map(|part| part.ident.to_string()).collect())
            },
            _ => None,
        }).collect();
        let proc_macro2::LineColumn { line, column } = call.method.span().start();
        let method = call.method.to_string();
        self.calls.push(MethodCall { method, arguments, line, column });
        syn::visit::visit_expr_method_call(self, call);
    }
}

/// The method calls in the Rust source text `source` and where their names start,
/// in the order of `syn`'s walk: `Err` with the parser's message if it is no Rust.
pub uninterp spec fn source_calls(source: Seq<char>) -> Result<Seq<CallModel>, Seq<char>>;

/// Parsing with `syn::parse_file` and walking the file with `syn`'s visitor gives
/// every method call outside of macros, each with the line and column of its name as
/// `proc_macro2::Span::start` gives them. The same text always gives the same calls,
/// in the same order. Places are kept per thread in 32 bits, so those of earlier texts
/// are given up first with `proc_macro2::extra::invalidate_current_thread_spans`, and
/// the text itself has to fit. Not for use inside a procedural macro, where places
/// cannot be given up.
#[verifier::external_body]
fn method_calls(source: &str) -> (r: Result<Vec<MethodCall>, String>)
    requires
        source@.len() < u32::MAX,
    ensures
        match r {
            Ok(v) => source_calls(source@) == Ok::<Seq<CallModel>, Seq<char>>(calls(v@)),
            Err(e) => source_calls(source@) == Err::<Seq<CallModel>, Seq<char>>(e@),
        },
{
    proc_macro2::extra::invalidate_current_thread_spans();
    let file = syn::parse_file(source).map_err(|e| e.to_string())?;
    let mut finder = CallFinder { calls: Vec::new() };
    finder.visit_file(&file);
    Ok(finder.calls)
}

/// The named functions passed to `.netmap(..)` in `source`, in source order, or
/// the parser's message if `source` is no Rust. Closures and other arguments that
/// are no path are skipped.
pub fn find_netmap_calls(source: &str) -> (r: Result<Vec<String>, String>)
    requires
        source@.len() < u32::MAX,
    ensures
        match (source_calls(source@), r) {
            (Ok(found), Ok(v)) => texts(v@) == targets(
                placed(found, found.len() as int),
                found.len() as int,
            ),
            (Err(e), Err(text)) => text@ == e,
            _ => false,
        },
{
    match method_calls(source) {
        Ok(found) => {
            proof {
                law_calls_come_in_source_order(calls(found@), found@.len() as int);
            }
            let sorted = in_source_order(found);
            assert(calls(sorted@).len() == sorted@.len());
            Ok(netmap_targets(&sorted))
        },
        Err(e) => Err(e),
    }
}

/// `known` followed by those of the first `n` calls not seen before, each once.
pub open spec fn with_calls(known: Seq<Seq<char>>, calls: Seq<Seq<char>>, n: int) -> Seq<Seq<char>>
    decreases n,
{
    if n <= 0 {
        known
    } else {
        let before = with_calls(known, calls, n - 1);
        if before.contains(calls[n - 1]) {
            before
        } else {
            before.push(calls[n - 1])
        }
    }
}

/// Add the functions called in one more source file, keeping each once and in the
/// order they were first seen.
pub fn add_calls(known: &mut Vec<String>, calls: &Vec<String>)
    ensures
        texts(final(known)@) == with_calls(
            texts(old(known)@),
            texts(calls@),
            calls@.len() as int,
        ),
{
    let ghost start = texts(known@);
    let mut i: usize = 0;
    while i < calls.len()
        invariant
            i <= calls@.len(),
            texts(known@) == with_calls(start, texts(calls@), i as int),
        decreases calls@.len() - i,
    {
        let ghost before = known@;
        if !holds(known, calls[i].as_str()) {
            known.push(calls[i].clone());
            proof {
                assert(texts(known@) =~= texts(before).push(calls@[i as int]@));
            }
        }
        i += 1;
    }
}

/// No function is registered twice.
pub proof fn law_calls_stay_distinct(known: Seq<Seq<char>>, calls: Seq<Seq<char>>, n: int)
    requires
        known.no_duplicates(),
        0 <= n <= calls.len(),
    ensures
        with_calls(known, calls, n).no_duplicates(),
        forall|i: int| 0 <= i < n ==> with_calls(known, calls, n).contains(#[trigger] calls[i]),
        forall|k: Seq<char>| known.contains(k) ==> #[trigger] with_calls(known, calls, n).contains(k),
    decreases n,
{
    if n > 0 {
        law_calls_stay_distinct(known, calls, n - 1);
        let before = with_calls(known, calls, n - 1);
        let after = with_calls(known, calls, n);
        if !before.contains(calls[n - 1]) {
            assert(after[before.len() as int] == calls[n - 1]);
            assert forall|k: Seq<char>| before.contains(k) implies #[trigger] after.contains(k) by {
                let j = before.index_of(k);
                assert(after[j] == k);
            }
        }
    }
}

/// The registrations of the first `n` functions.
pub open spec fn registrations(functions: Seq<Seq<char>>, n: int) -> Seq<char>
    decreases n,
{
    if n <= 0 {
        "rayonet::agent::Registry::new()"@
    } else {
        registrations(functions, n - 1) + ".with_fn("@ + functions[n - 1] + ")"@
    }
}

/// The expression that builds the registry of the discovered task functions.
pub fn generate_registry(functions: &[String]) -> (r: String)
    ensures
        r@ == registrations(texts(functions@), functions@.len() as int),
{
    let mut code = "rayonet::agent::Registry::new()".to_owned();
    let mut i: usize = 0;
    while i < functions.len()
        invariant
            i <= functions@.len(),
            code@ == registrations(texts(functions@), i as int),
        decreases functions@.len() - i,
    {
        code.append(".with_fn(");
        code.append(functions[i].as_str());
        code.append(")");
        i += 1;
    }
    code
}

/// One dependency of a manifest: its name, and whether it is given by a path.
#[derive(Debug, Clone, PartialEq, Eq)]
pub struct Dependency {
    /// Its name.
    pub name: String,
    /// Whether it is given by a path.
    pub local: bool,
}

/// A [`Dependency`] as a mathematical value.
pub struct DependencyModel {
    pub name: Seq<char>,
    pub local: bool,
}

impl View for Dependency {
    type V = DependencyModel;

    open spec fn view(&self) -> DependencyModel {
        DependencyModel { name: self.name@, local: self.local }
    }
}

/// Each dependency in turn as a mathematical value.
pub open spec fn dependencies(v: Seq<Dependency>) -> Seq<DependencyModel> {
    Seq::new(v.len(), |i: int| v[i]@)
}

/// An entry of a table: its key, and the keys of its value if that is a table.
#[derive(Debug, Clone, PartialEq, Eq)]
pub struct Entry {
    /// The key.
    pub key: String,
    /// The keys of the value, if it is a table.
    pub keys: Option<Vec<String>>,
}

/// An [`Entry`] as a mathematical value.
pub struct EntryModel {
    pub key: Seq<char>,
    pub keys: Option<Seq<Seq<char>>>,
}

impl View for Entry {
    type V = EntryModel;

    open spec fn view(&self) -> EntryModel {
        EntryModel {
            key: self.key@,
            keys: match self.keys {
                Some(keys) => Some(texts(keys@)),
                None => None,
            },
        }
    }
}

/// Each entry in turn as a mathematical value.
pub open spec fn entries_of(v: Seq<Entry>) -> Seq<EntryModel> {
    Seq::new(v.len(), |i: int| v[i]@)
}

/// A top-level item of a document: its key, and its entries if it is a table.
#[derive(Debug, Clone, PartialEq, Eq)]
pub struct Section {
    /// The key.
    pub key: String,
    /// The entries, if the item is a table.
    pub entries: Option<Vec<Entry>>,
}

/// A [`Section`] as a mathematical value.
pub struct SectionModel {
    pub key: Seq<char>,
    pub entries: Option<Seq<EntryModel>>,
}

impl View for Section {
    type V = SectionModel;

    open spec fn view(&self) -> SectionModel {
        SectionModel {
            key: self.key@,
            entries: match self.entries {
                Some(entries) => Some(entries_of(entries@)),
                None => None,
            },
        }
    }
}

/// Each section in turn as a mathematical value.
pub open spec fn sections(v: Seq<Section>) -> Seq<SectionModel> {
    Seq::new(v.len(), |i: int| v[i]@)
}

/// The top-level items of the TOML document `text`, in the order of the table that
/// the `toml` crate reads, or its message if `text` is no document.
pub uninterp spec fn toml_table(text: Seq<char>) -> Result<Seq<SectionModel>, Seq<char>>;

/// Parsing a `toml::Table` gives the document's items, in the table's order. The
/// same text always gives the same items, in the same order.
#[verifier::external_body]
fn read_table(text: &str) -> (r: Result<Vec<Section>, String>)
    ensures
        match r {
            Ok(v) => toml_table(text@) == Ok::<Seq<SectionModel>, Seq<char>>(sections(v@)),
            Err(e) => toml_table(text@) == Err::<Seq<SectionModel>, Seq<char>>(e@),
        },
{
    let table = text.parse::<toml::Table>().map_err(|e| e.to_string())?;
    Ok(table.iter().map(|(key, item)| Section {
        key: key.clone(),
        entries: item.as_table().map(|t| t.iter().map(|(key, value)| Entry {
            key: key.clone(),
            keys: value.as_table().map(|t| t.keys().cloned().collect()),
        }).collect()),
    }).collect())
}

/// The position of the first item at or after `from` with this key, or the number
/// of items.
pub open spec fn item_at(doc: Seq<SectionModel>, key: Seq<char>, from: int) -> int
    decreases doc.len() - from,
{
    if from < 0 || from >= doc.len() || doc[from].key == key {
        from
    } else {
        item_at(doc, key, from + 1)
    }
}

/// Find the item with this key.
pub fn find_item(doc: &Vec<Section>, key: &str) -> (r: usize)
    ensures
        r == item_at(sections(doc@), key@, 0),
        r <= doc@.len(),
{
    let ghost all = sections(doc@);
    let mut i: usize = 0;
    while i < doc.len()
        invariant
            all == sections(doc@),
            i <= doc@.len(),
            item_at(all, key@, 0) == item_at(all, key@, i as int),
        decreases doc@.len() - i,
    {
        assert(all[i as int] == doc@[i as int]@);
        if same(doc[i].key.as_str(), key) {
            return i;
        }
        i += 1;
    }
    i
}

/// Whether an entry is a table that says where the dependency lies.
pub open spec fn is_local(entry: EntryModel) -> bool {
    entry.keys matches Some(keys) && keys.contains("path"@)
}

/// The dependencies that the entries of a table declare.
pub open spec fn declared(entries: Seq<EntryModel>) -> Seq<DependencyModel> {
    Seq::new(
        entries.len(),
        |i: int| DependencyModel { name: entries[i].key, local: is_local(entries[i]) },
    )
}

/// The dependencies that the entries of a table declare.
pub fn declared_dependencies(entries: &Vec<Entry>) -> (r: Vec<Dependency>)
    ensures
        dependencies(r@) == declared(entries_of(entries@)),
{
    let mut r: Vec<Dependency> = Vec::new();
    let mut i: usize = 0;
    while i < entries.len()
        invariant
            i <= entries@.len(),
            r@.len() == i,
            forall|j: int| 0 <= j < i ==> (#[trigger] r@[j])@ == declared(entries_of(entries@))[j],
        decreases entries@.len() - i,
    {
        assert(entries_of(entries@)[i as int] == entries@[i as int]@);
        let local = match &entries[i].keys {
            Some(keys) => holds(keys, "path"),
            None => false,
        };
        r.push(Dependency { name: entries[i].key.clone(), local });
        i += 1;
    }
    proof {
        assert(dependencies(r@) =~= declared(entries_of(entries@)));
    }
    r
}

/// Whether a dependency of this name may be local: the library itself or its build
/// helper.
pub open spec fn may_be_local(own: Seq<char>, name: Seq<char>) -> bool {
    name == own || name == own + "-build"@
}

/// Whether a dependency keeps the crate from being shipped.
pub open spec fn blocks(own: Seq<char>, d: DependencyModel) -> bool {
    d.local && !may_be_local(own, d.name)
}

/// The position of the first dependency at or after `from` that keeps the crate
/// from being shipped, or the number of dependencies.
pub open spec fn first_block(own: Seq<char>, deps: Seq<DependencyModel>, from: int) -> int
    decreases deps.len() - from,
{
    if from < 0 || from >= deps.len() || blocks(own, deps[from]) {
        from
    } else {
        first_block(own, deps, from + 1)
    }
}

/// The message about a local dependency.
pub open spec fn block_text(own: Seq<char>, name: Seq<char>) -> Seq<char> {
    own + " does not support local path dependencies yet: `"@ + name
        + "` uses `path = ...`; publish, vendor, or inline it"@
}

/// Refuse a table of dependencies that holds a local one, other than the library
/// itself or its build helper; the first such one is named.
pub fn check_dependencies(own: &str, deps: &Vec<Dependency>) -> (r: Result<(), String>)
    ensures
        match r {
            Ok(_) => first_block(own@, dependencies(deps@), 0) >= deps@.len(),
            Err(text) => first_block(own@, dependencies(deps@), 0) < deps@.len() && text@
                == block_text(
                own@,
                dependencies(deps@)[first_block(own@, dependencies(deps@), 0)].name,
            ),
        },
{
    let mut helper = own.to_owned();
    helper.append("-build");
    let ghost all = dependencies(deps@);
    let mut i: usize = 0;
    while i < deps.len()
        invariant
            helper@ == own@ + "-build"@,
            all == dependencies(deps@),
            i <= deps@.len(),
            first_block(own@, all, 0) == first_block(own@, all, i as int),
        decreases deps@.len() - i,
    {
        assert(all[i as int] == deps@[i as int]@);
        let allowed = same(deps[i].name.as_str(), own) || same(
            deps[i].name.as_str(),
            helper.as_str(),
        );
        if deps[i].local && !allowed {
            let mut text = own.to_owned();
            text.append(" does not support local path dependencies yet: `");
            text.append(deps[i].name.as_str());
            text.append("` uses `path = ...`; publish, vendor, or inline it");
            return Err(text);
        }
        i += 1;
    }
    Ok(())
}

/// What the check of one section comes to: `None` if nothing is wrong with it, or
/// if the document has no such table.
pub open spec fn section_verdict(
    own: Seq<char>,
    doc: Seq<SectionModel>,
    section: Seq<char>,
) -> Option<Seq<char>> {
    let at = item_at(doc, section, 0);
    if at < doc.len() && doc[at].entries is Some {
        let deps = declared(doc[at].entries->0);
        let block = first_block(own, deps, 0);
        if block < deps.len() {
            Some(block_text(own, deps[block].name))
        } else {
            None
        }
    } else {
        None
    }
}

/// Check one section of a manifest.
fn check_section(own: &str, doc: &Vec<Section>, section: &str) -> (r: Result<(), String>)
    ensures
        match r {
            Ok(_) => section_verdict(own@, sections(doc@), section@) is None,
            Err(e) => section_verdict(own@, sections(doc@), section@) == Some(e@),
        },
{
    let at: usize = find_item(doc, section);
    if at == doc.len() {
        return Ok(());
    }
    assert(sections(doc@)[at as int] == doc@[at as int]@);
    match &doc[at].entries {
        None => Ok(()),
        Some(entries) => {
            let deps = declared_dependencies(entries);
            proof {
                assert(dependencies(deps@).len() == deps@.len());
            }
            check_dependencies(own, &deps)
        },
    }
}

/// What the check of a whole manifest comes to: its dependency tables are looked
/// at in a fixed order, and the first objection stands.
pub open spec fn manifest_verdict(own: Seq<char>, doc: Seq<SectionModel>) -> Option<Seq<char>> {
    if section_verdict(own, doc, "dependencies"@) is Some {
        section_verdict(own, doc, "dependencies"@)
    } else if section_verdict(own, doc, "build-dependencies"@) is Some {
        section_verdict(own, doc, "build-dependencies"@)
    } else {
        section_verdict(own, doc, "dev-dependencies"@)
    }
}

/// Refuse a manifest with a local path dependency other than the library `own`
/// itself or its build helper.
pub fn check_manifest(own: &str, doc: &Vec<Section>) -> (r: Result<(), String>)
    ensures
        match r {
            Ok(_) => manifest_verdict(own@, sections(doc@)) is None,
            Err(e) => manifest_verdict(own@, sections(doc@)) == Some(e@),
        },
{
    match check_section(own, doc, "dependencies") {
        Err(e) => {
            return Err(e);
        },
        Ok(_) => {},
    }
    match check_section(own, doc, "build-dependencies") {
        Err(e) => {
            return Err(e);
        },
        Ok(_) => {},
    }
    check_section(own, doc, "dev-dependencies")
}

/// Refuse a manifest that cannot be shipped: one that does not parse, or that has a
/// local path dependency other than the library `own` itself or its build helper.
pub fn check_path_dependencies(own: &str, text: &str) -> (r: Result<(), String>)
    ensures
        match (toml_table(text@), r) {
            (Ok(doc), Ok(_)) => manifest_verdict(own@, doc) is None,
            (Ok(doc), Err(e)) => manifest_verdict(own@, doc) == Some(e@),
            (Err(e), Err(message)) => message@ == "Cargo.toml: "@ + e,
            (Err(_), Ok(_)) => false,
        },
{
    match read_table(text) {
        Err(e) => {
            let mut message = "Cargo.toml: ".to_owned();
            message.append(e.as_str());
            Err(message)
        },
        Ok(doc) => check_manifest(own, &doc),
    }
}

/// Whether a document declares a workspace.
pub fn has_workspace(doc: &Vec<Section>) -> (r: bool)
    ensures
        r == exists|i: int| 0 <= i < doc@.len() && (#[trigger] sections(doc@)[i]).key == "workspace"@,
{
    let at: usize = find_item(doc, "workspace");
    proof {
        lemma_item_at(sections(doc@), "workspace"@, 0);
    }
    at < doc.len()
}

/// The search for an item stops at one with its key, and passes over none.
proof fn lemma_item_at(doc: Seq<SectionModel>, key: Seq<char>, from: int)
    requires
        0 <= from <= doc.len(),
    ensures
        from <= item_at(doc, key, from) <= doc.len(),
        item_at(doc, key, from) < doc.len() ==> doc[item_at(doc, key, from)].key == key,
        forall|i: int| from <= i < item_at(doc, key, from) ==> (#[trigger] doc[i]).key != key,
    decreases doc.len() - from,
{
    if from < doc.len() && doc[from].key != key {
        lemma_item_at(doc, key, from + 1);
    }
}

/// Whether a manifest declares a workspace; a text that is no document does not.
pub fn declares_workspace(text: &str) -> (r: bool)
    ensures
        r == match toml_table(text@) {
            Ok(doc) => exists|i: int|
                0 <= i < doc.len() && (#[trigger] doc[i]).key == "workspace"@,
            Err(_) => false,
        },
{
    match read_table(text) {
        Ok(doc) => {
            assert(sections(doc@).len() == doc@.len());
            has_workspace(&doc)
        },
        Err(_) => false,
    }
}

/// The root of a crate's workspace among its ancestors, nearest first, given which
/// of them declare one: the highest that does, or the crate itself.
pub fn workspace_root(declares: &Vec<bool>) -> (r: usize)
    ensures
        (forall|i: int| 0 <= i < declares@.len() ==> !(#[trigger] declares@[i])) ==> r == 0,
        (exists|i: int| 0 <= i < declares@.len() && #[trigger] declares@[i]) ==> r < declares@.len()
            && declares@[r as int] && forall|i: int|
            r < i < declares@.len() ==> !(#[trigger] declares@[i]),
{
    let mut r: usize = declares.len();
    while r > 0 && !declares[r - 1]
        invariant
            r <= declares@.len(),
            forall|i: int| r <= i < declares@.len() ==> !(#[trigger] declares@[i]),
        decreases r,
    {
        r -= 1;
    }
    if r == 0 {
        0
    } else {
        proof {
            assert(declares@[r - 1]);
        }
        r - 1
    }
}

/// Whether a directory entry goes into the source bundle: build output, version
/// control metadata and the output directory do not.
pub fn is_bundled(name: &str, is_out_dir: bool) -> (r: bool)
    ensures
        r == (name@ != "target"@ && name@ != ".git"@ && !is_out_dir),
{
    !same(name, "target") && !same(name, ".git") && !is_out_dir
}

/// A call registers a task exactly if it is a call of `netmap` with a path as its first
/// argument, and then that path, its segments joined by `::`.
pub proof fn law_what_a_call_registers(call: CallModel, segments: Seq<Seq<char>>)
    ensures
        call.method == "netmap"@ && call.arguments.len() > 0 && call.arguments[0] == Some(segments)
            ==> call.target() == Some(joined(segments, "::"@)),
        call.method != "netmap"@ ==> call.target() is None,
        call.arguments.len() == 0 ==> call.target() is None,
        call.arguments.len() > 0 && call.arguments[0] is None ==> call.target() is None,
{
}

/// The tasks of a source are what its calls register, in the order of the calls, each as
/// often as it is called.
pub proof fn law_every_call_counts(all: Seq<CallModel>, call: CallModel)
    ensures
        targets(all, 0).len() == 0,
        call.target() matches Some(name) ==> targets(all.push(call), all.len() as int + 1)
            == targets(all, all.len() as int).push(name),
        call.target() is None ==> targets(all.push(call), all.len() as int + 1) == targets(
            all,
            all.len() as int,
        ),
{
    lemma_targets_prefix(all, call, all.len() as int);
}

proof fn lemma_targets_prefix(all: Seq<CallModel>, call: CallModel, n: int)
    requires
        0 <= n <= all.len(),
    ensures
        targets(all.push(call), n) == targets(all, n),
    decreases n,
{
    if n > 0 {
        lemma_targets_prefix(all, call, n - 1);
    }
}

/// One call stands before another if it is on an earlier line, or on the same line further
/// left.
pub proof fn law_what_stands_before(a: CallModel, b: CallModel)
    ensures
        precedes(a, b) <==> a.line < b.line || (a.line == b.line && a.column < b.column),
{
}

/// What is known comes first and stays as it is; what is new follows in the order in which
/// it is first called, and nothing else is added.
pub proof fn law_known_functions_come_first(known: Seq<Seq<char>>, calls: Seq<Seq<char>>, n: int)
    requires
        0 <= n <= calls.len(),
    ensures
        with_calls(known, calls, n).len() >= known.len(),
        with_calls(known, calls, n).take(known.len() as int) == known,
        forall|k: Seq<char>| #[trigger]
            with_calls(known, calls, n).contains(k) ==> known.contains(k) || calls.contains(k),
        n > 0 && !with_calls(known, calls, n - 1).contains(calls[n - 1]) ==> with_calls(
            known,
            calls,
            n,
        ).last() == calls[n - 1],
    decreases n,
{
    if n == 0 {
        assert(known.take(known.len() as int) =~= known);
    } else {
        law_known_functions_come_first(known, calls, n - 1);
        let before = with_calls(known, calls, n - 1);
        let after = with_calls(known, calls, n);
        assert(after.take(known.len() as int) =~= before.take(known.len() as int));
        assert forall|k: Seq<char>| #[trigger] after.contains(k) implies known.contains(k)
            || calls.contains(k) by {
            if !before.contains(calls[n - 1]) {
                let j = after.index_of(k);
                if j < before.len() {
                    assert(before[j] == k);
                    assert(before.contains(k));
                } else {
                    assert(calls[n - 1] == k);
                }
            }
        }
    }
}

/// The registry is written as a chain: an empty one, and one registration per function, in
/// order.
pub proof fn law_one_registration_per_function(functions: Seq<Seq<char>>, function: Seq<char>)
    ensures
        registrations(functions, 0) == "rayonet::agent::Registry::new()"@,
        registrations(functions.push(function), functions.len() as int + 1) == registrations(
            functions,
            functions.len() as int,
        ) + ".with_fn("@ + function + ")"@,
{
    lemma_registrations_prefix(functions, function, functions.len() as int);
}

proof fn lemma_registrations_prefix(functions: Seq<Seq<char>>, function: Seq<char>, n: int)
    requires
        0 <= n <= functions.len(),
    ensures
        registrations(functions.push(function), n) == registrations(functions, n),
    decreases n,
{
    if n > 0 {
        lemma_registrations_prefix(functions, function, n - 1);
    }
}

/// A dependency is local exactly if it is a table with a path in it.
pub proof fn law_what_is_local(entries: Seq<EntryModel>, i: int)
    requires
        0 <= i < entries.len(),
    ensures
        declared(entries).len() == entries.len(),
        declared(entries)[i].name == entries[i].key,
        entries[i].keys is None ==> !declared(entries)[i].local,
        entries[i].keys matches Some(keys) ==> declared(entries)[i].local == keys.contains("path"@),
{
}

/// A local dependency keeps a crate from being shipped unless it is the library itself or
/// its build helper; any other does not.
pub proof fn law_what_keeps_a_crate_from_being_shipped(own: Seq<char>, d: DependencyModel)
    ensures
        blocks(own, d) <==> d.local && d.name != own && d.name != own + "-build"@,
        block_text(own, d.name) == own + " does not support local path dependencies yet: `"@
            + d.name + "` uses `path = ...`; publish, vendor, or inline it"@,
{
}

/// The dependency objected to is the first that keeps the crate from being shipped; without
/// one there is no objection.
pub proof fn law_the_first_objection_stands(own: Seq<char>, deps: Seq<DependencyModel>, from: int)
    requires
        0 <= from <= deps.len(),
    ensures
        ({
            let at = first_block(own, deps, from);
            &&& from <= at <= deps.len()
            &&& at < deps.len() ==> blocks(own, deps[at])
            &&& forall|i: int| from <= i < at ==> !blocks(own, #[trigger] deps[i])
        }),
    decreases deps.len() - from,
{
    if from < deps.len() && !blocks(own, deps[from]) {
        law_the_first_objection_stands(own, deps, from + 1);
    }
}

/// A manifest passes exactly if none of its three dependency tables holds a dependency that
/// keeps it from being shipped; a table that is missing, or no table, holds none.
pub proof fn law_when_a_manifest_passes(own: Seq<char>, doc: Seq<SectionModel>)
    ensures
        manifest_verdict(own, doc) is None <==> section_verdict(own, doc, "dependencies"@) is None
            && section_verdict(own, doc, "build-dependencies"@) is None && section_verdict(
            own,
            doc,
            "dev-dependencies"@,
        ) is None,
        section_verdict(own, doc, "dependencies"@) is Some ==> manifest_verdict(own, doc)
            == section_verdict(own, doc, "dependencies"@),
        section_verdict(own, doc, "dependencies"@) is None && section_verdict(
            own,
            doc,
            "build-dependencies"@,
        ) is Some ==> manifest_verdict(own, doc) == section_verdict(
            own,
            doc,
            "build-dependencies"@,
        ),
{
}

/// A section is objected to exactly if it is a table with a dependency that keeps the crate
/// from being shipped, and then by the message about the first such one.
pub proof fn law_when_a_section_passes(
    own: Seq<char>,
    doc: Seq<SectionModel>,
    section: Seq<char>,
    at: int,
)
    requires
        0 <= at <= doc.len(),
        at < doc.len() ==> doc[at].key == section,
        forall|i: int| 0 <= i < at ==> (#[trigger] doc[i]).key != section,
    ensures
        at == doc.len() || doc[at].entries is None ==> section_verdict(own, doc, section) is None,
        at < doc.len() && doc[at].entries is Some ==> ({
            let deps = declared(doc[at].entries->0);
            &&& section_verdict(own, doc, section) is None <==> forall|i: int|
                0 <= i < deps.len() ==> !blocks(own, #[trigger] deps[i])
            &&& section_verdict(own, doc, section) matches Some(text) ==> exists|i: int|
                0 <= i < deps.len() && blocks(own, #[trigger] deps[i]) && text == block_text(
                    own,
                    deps[i].name,
                )
        }),
{
    lemma_item_at(doc, section, 0);
    let found = item_at(doc, section, 0);
    assert(found == at) by {
        if found < at {
            assert(doc[found].key != section);
        } else if at < found {
            assert(doc[at].key != section);
        }
    }
    if at < doc.len() && doc[at].entries is Some {
        let deps = declared(doc[at].entries->0);
        law_the_first_objection_stands(own, deps, 0);
        let first = first_block(own, deps, 0);
        if first < deps.len() {
            assert(blocks(own, deps[first]));
        }
    }
}

/// What a call, an entry and a section stand for holds all that they say.
pub proof fn law_calls_and_entries_keep_their_contents(
    call: MethodCall,
    entry: Entry,
    section: Section,
    dependency: Dependency,
    i: int,
)
    ensures
        call@.method == call.method@,
        call@.line == call.line,
        call@.column == call.column,
        call@.arguments.len() == call.arguments@.len(),
        0 <= i < call.arguments@.len() ==> match call.arguments@[i] {
            Some(segments) => call@.arguments[i] == Some(texts(segments@)),
            None => call@.arguments[i] is None,
        },
        entry@.key == entry.key@,
        entry.keys matches Some(keys) ==> entry@.keys == Some(texts(keys@)),
        entry.keys is None ==> entry@.keys is None,
        section@.key == section.key@,
        section.entries matches Some(all) ==> section@.entries == Some(entries_of(all@)),
        section.entries is None ==> section@.entries is None,
        dependency@.name == dependency.name@,
        dependency@.local == dependency.local,
{
}

} // verus!
