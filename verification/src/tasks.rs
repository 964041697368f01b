//! The rules behind rewriting a distributed map's call sites into keyed tasks.
//!
//! The coordinator and each agent compile the same source, so both derive the same
//! keys. A closure is registered away from its receiver, so its input type has to
//! be named there: from its own annotation, from a typed binding in scope, or from
//! a literal or range receiver. Types and token sequences are carried as text.
use vstd::prelude::*;
use vstd::string::*;

use crate::provisioning::hex_digit;
use crate::text::{decimal, push_decimal, same};

verus! {

/// A generic argument of a type.
#[derive(Debug, Clone, PartialEq, Eq)]
pub enum GenericArg {
    /// A type, as written.
    Type(String),
    /// A lifetime, constant or constraint.
    Other,
}

/// A type as far as naming its elements needs it.
#[derive(Debug, Clone, PartialEq, Eq)]
pub enum TypeShape {
    /// A path whose last segment has these angle-bracketed arguments.
    Generic(Vec<GenericArg>),
    /// Anything else: a path without arguments, a tuple, a reference, or no declared
    /// type at all.
    Plain,
}

/// A literal as far as its type can be read off it.
#[derive(Debug, Clone, PartialEq, Eq)]
pub enum Literal {
    /// An integer with this suffix, empty if it has none.
    Int(String),
    /// Anything else.
    Other,
}

/// The receiver of a call as far as its element type can be read off it.
#[derive(Debug, PartialEq, Eq)]
pub enum Receiver {
    /// A bare name.
    Name(String),
    /// A range, with its bounds as far as they are given.
    Range(Option<Literal>, Option<Literal>),
    /// A `vec!` literal with its first element, if it has one.
    VecMacro(Option<Literal>),
    /// A parenthesised receiver.
    Paren(Box<Receiver>),
    /// Anything else.
    Other,
}

/// A binding in scope.
#[derive(Debug, Clone, PartialEq, Eq)]
pub struct Binding {
    /// The name bound.
    pub name: String,
    /// Its declared type.
    pub ty: TypeShape,
}

/// Where a closure's input type was found.
#[derive(Debug, Clone, PartialEq, Eq)]
pub enum Recovered {
    /// The closure annotated its parameter.
    Annotated(String),
    /// A typed binding in scope gave the receiver's element type.
    Binding(String),
    /// A literal or range receiver gave the element type.
    Receiver(String),
    /// It cannot be named here.
    GiveUp,
}

/// A [`Recovered`] as a mathematical value.
pub enum RecoveredModel {
    Annotated { ty: Seq<char> },
    Binding { ty: Seq<char> },
    Receiver { ty: Seq<char> },
    GiveUp,
}

impl View for Recovered {
    type V = RecoveredModel;

    open spec fn view(&self) -> RecoveredModel {
        match *self {
            Recovered::Annotated(ty) => RecoveredModel::Annotated { ty: ty@ },
            Recovered::Binding(ty) => RecoveredModel::Binding { ty: ty@ },
            Recovered::Receiver(ty) => RecoveredModel::Receiver { ty: ty@ },
            Recovered::GiveUp => RecoveredModel::GiveUp,
        }
    }
}

/// The first type among generic arguments, from `from` on.
pub open spec fn first_type(args: Seq<GenericArg>, from: int) -> Option<Seq<char>>
    decreases args.len() - from,
{
    if from < 0 || from >= args.len() {
        None
    } else {
        match args[from] {
            GenericArg::Type(ty) => Some(ty@),
            GenericArg::Other => first_type(args, from + 1),
        }
    }
}

/// The element type of a generic container: its first type argument.
pub open spec fn element_of(ty: TypeShape) -> Option<Seq<char>> {
    match ty {
        TypeShape::Generic(args) => first_type(args@, 0),
        TypeShape::Plain => None,
    }
}

/// The element type of a generic container: its first type argument.
pub fn element_type(ty: &TypeShape) -> (r: Option<String>)
    ensures
        match r {
            Some(found) => element_of(*ty) == Some(found@),
            None => element_of(*ty) is None,
        },
{
    match ty {
        TypeShape::Generic(args) => {
            let mut i: usize = 0;
            while i < args.len()
                invariant
                    *ty == TypeShape::Generic(*args),
                    i <= args@.len(),
                    first_type(args@, 0) == first_type(args@, i as int),
                decreases args@.len() - i,
            {
                match &args[i] {
                    GenericArg::Type(found) => {
                        return Some(found.clone());
                    },
                    GenericArg::Other => {},
                }
                i += 1;
            }
            None
        },
        TypeShape::Plain => None,
    }
}

/// The type that a suffixed integer literal names.
pub open spec fn suffix_of(literal: Option<Literal>) -> Option<Seq<char>> {
    match literal {
        Some(Literal::Int(suffix)) => if suffix@.len() > 0 {
            Some(suffix@)
        } else {
            None
        },
        _ => None,
    }
}

/// The type that a suffixed integer literal names.
pub fn literal_suffix_type(literal: &Option<Literal>) -> (r: Option<String>)
    ensures
        match r {
            Some(found) => suffix_of(*literal) == Some(found@),
            None => suffix_of(*literal) is None,
        },
{
    match literal {
        Some(Literal::Int(suffix)) => if suffix.as_str().is_empty() {
            None
        } else {
            Some(suffix.clone())
        },
        _ => None,
    }
}

/// The element type a literal or range receiver shows. A range shows that of its
/// first suffixed bound, a `vec!` literal that of its first element.
pub open spec fn shown_by(receiver: Receiver) -> Option<Seq<char>>
    decreases receiver,
{
    match receiver {
        Receiver::Paren(inner) => shown_by(*inner),
        Receiver::Range(start, end) => if suffix_of(start) is Some {
            suffix_of(start)
        } else {
            suffix_of(end)
        },
        Receiver::VecMacro(first) => suffix_of(first),
        _ => None,
    }
}

/// The element type a literal or range receiver shows.
pub fn receiver_element_type(receiver: &Receiver) -> (r: Option<String>)
    ensures
        match r {
            Some(found) => shown_by(*receiver) == Some(found@),
            None => shown_by(*receiver) is None,
        },
    decreases receiver,
{
    match receiver {
        Receiver::Paren(inner) => receiver_element_type(inner),
        Receiver::Range(start, end) => match literal_suffix_type(start) {
            Some(found) => Some(found),
            None => literal_suffix_type(end),
        },
        Receiver::VecMacro(first) => literal_suffix_type(first),
        _ => None,
    }
}

/// The latest of the first `n` bindings of `name`, or -1.
pub open spec fn bound_at(bindings: Seq<Binding>, name: Seq<char>, n: int) -> int
    decreases n,
{
    if n <= 0 {
        -1
    } else if bindings[n - 1].name@ == name {
        n - 1
    } else {
        bound_at(bindings, name, n - 1)
    }
}

/// The element type of the binding a bare receiver names; a later binding shadows
/// an earlier one.
pub open spec fn bound_to(receiver: Receiver, bindings: Seq<Binding>) -> Option<Seq<char>> {
    match receiver {
        Receiver::Name(name) => {
            let at = bound_at(bindings, name@, bindings.len() as int);
            if at < 0 {
                None
            } else {
                element_of(bindings[at].ty)
            }
        },
        _ => None,
    }
}

/// The element type of the binding a bare receiver names.
pub fn binding_element_type(receiver: &Receiver, bindings: &Vec<Binding>) -> (r: Option<String>)
    ensures
        match r {
            Some(found) => bound_to(*receiver, bindings@) == Some(found@),
            None => bound_to(*receiver, bindings@) is None,
        },
{
    match receiver {
        Receiver::Name(name) => {
            let mut i: usize = bindings.len();
            while i > 0
                invariant
                    *receiver == Receiver::Name(*name),
                    i <= bindings@.len(),
                    bound_at(bindings@, name@, bindings@.len() as int) == bound_at(
                        bindings@,
                        name@,
                        i as int,
                    ),
                decreases i,
            {
                if same(bindings[i - 1].name.as_str(), name.as_str()) {
                    return element_type(&bindings[i - 1].ty);
                }
                i -= 1;
            }
            None
        },
        _ => None,
    }
}

/// Where the input type of a closure with these parameter annotations is found. Only
/// a closure of one parameter can be a task; what it says itself wins, before the
/// binding its receiver names and before what the receiver shows.
pub open spec fn recovered(
    params: Seq<Option<String>>,
    receiver: Receiver,
    bindings: Seq<Binding>,
) -> RecoveredModel {
    if params.len() != 1 {
        RecoveredModel::GiveUp
    } else {
        match params[0] {
            Some(ty) => RecoveredModel::Annotated { ty: ty@ },
            None => match bound_to(receiver, bindings) {
                Some(ty) => RecoveredModel::Binding { ty },
                None => match shown_by(receiver) {
                    Some(ty) => RecoveredModel::Receiver { ty },
                    None => RecoveredModel::GiveUp,
                },
            },
        }
    }
}

/// Name a closure's single input type. `params` holds the annotation of each
/// parameter, `bindings` the typed bindings in scope.
pub fn recover_input_type(
    params: &Vec<Option<String>>,
    receiver: &Receiver,
    bindings: &Vec<Binding>,
) -> (r: Recovered)
    ensures
        r@ == recovered(params@, *receiver, bindings@),
{
    if params.len() != 1 {
        return Recovered::GiveUp;
    }
    match &params[0] {
        Some(ty) => {
            return Recovered::Annotated(ty.clone());
        },
        None => {},
    }
    match binding_element_type(receiver, bindings) {
        Some(ty) => {
            return Recovered::Binding(ty);
        },
        None => {},
    }
    match receiver_element_type(receiver) {
        Some(ty) => Recovered::Receiver(ty),
        None => Recovered::GiveUp,
    }
}

/// The 64-bit FNV-1a hash of the first `n` bytes.
pub open spec fn fnv1a(bytes: Seq<u8>, n: int) -> u64
    decreases n,
{
    if n <= 0 {
        0xcbf2_9ce4_8422_2325u64
    } else {
        vstd::wrapping::u64_specs::wrapping_mul(
            fnv1a(bytes, n - 1) ^ (bytes[n - 1] as u64),
            0x0000_0100_0000_01b3u64,
        )
    }
}

/// The last `n` hexadecimal digits of `h`.
pub open spec fn hex_tail(h: nat, n: nat) -> Seq<char>
    decreases n,
{
    if n == 0 {
        Seq::empty()
    } else {
        hex_tail(h / 16, (n - 1) as nat).push(hex_digit((h % 16) as int))
    }
}

/// Append the last `n` hexadecimal digits of `h`.
fn push_hex_tail(s: &mut String, h: u64, n: u32)
    ensures
        final(s)@ == old(s)@ + hex_tail(h as nat, n as nat),
    decreases n,
{
    if n > 0 {
        push_hex_tail(s, h / 16, n - 1);
        let d: u8 = (h % 16) as u8;
        let c = if d < 10 {
            (48u8 + d) as char
        } else {
            (87u8 + d) as char
        };
        s.push(c);
    }
    proof {
        assert(s@ =~= old(s)@ + hex_tail(h as nat, n as nat));
    }
}

/// The FNV-1a hash of a text's UTF-8 bytes as sixteen hexadecimal digits. It does
/// not depend on the toolchain, so both ends derive the same one.
pub fn fnv1a_hex(text: &str) -> (r: String)
    ensures
        r@ == hashed(text@),
{
    let bytes = text.as_bytes();
    let mut hash: u64 = 0xcbf2_9ce4_8422_2325;
    let mut i: usize = 0;
    while i < bytes.len()
        invariant
            i <= bytes@.len(),
            hash == fnv1a(bytes@, i as int),
        decreases bytes@.len() - i,
    {
        hash = hash ^ (bytes[i] as u64);
        hash = hash.wrapping_mul(0x0000_0100_0000_01b3);
        i += 1;
    }
    let mut r = String::new();
    push_hex_tail(&mut r, hash, 16);
    proof {
        assert(r@ =~= hashed(text@));
    }
    r
}

/// The hash of a text as sixteen hexadecimal digits.
pub open spec fn hashed(text: Seq<char>) -> Seq<char> {
    let bytes = vstd::utf8::encode_utf8(text);
    hex_tail(fnv1a(bytes, bytes.len() as int) as nat, 16)
}

/// The wire key of a task: a named function by the last segment of its path, any
/// other by its position in the scope, with a hash of its tokens.
pub open spec fn key_of(
    scope: Seq<char>,
    function: Option<Seq<char>>,
    tokens: Seq<char>,
    ordinal: nat,
) -> Seq<char> {
    match function {
        Some(name) => scope + "::"@ + name + "#"@ + hashed(tokens),
        None => scope + "::task#"@ + decimal(ordinal) + "#"@ + hashed(tokens),
    }
}

/// The wire key of one task call site. `function` is the last segment of a named
/// function's path, `tokens` the task's tokens as displayed. The key depends on
/// nothing else, so however the source is laid out both ends derive the same.
pub fn task_key(scope: &str, function: Option<&str>, tokens: &str, ordinal: usize) -> (r: String)
    ensures
        r@ == key_of(
            scope@,
            match function {
                Some(name) => Some(name@),
                None => None,
            },
            tokens@,
            ordinal as nat,
        ),
        r@ == match function {
            Some(name) => scope@ + "::"@ + name@ + "#"@ + hashed(tokens@),
            None => scope@ + "::task#"@ + decimal(ordinal as nat) + "#"@ + hashed(tokens@),
        },
{
    let hash = fnv1a_hex(tokens);
    let mut r = scope.to_owned();
    match function {
        Some(name) => {
            r.append("::");
            r.append(name);
        },
        None => {
            r.append("::task#");
            push_decimal(&mut r, ordinal as u64);
        },
    }
    r.append("#");
    r.append(hash.as_str());
    r
}

/// How a task argument is written at its call site and registered.
#[derive(Debug, Clone, PartialEq, Eq)]
pub enum Resolution {
    /// As it stands.
    Verbatim,
    /// With this type written in as its parameter's annotation.
    Annotate(String),
    /// Not at all: a compile error is raised there instead.
    CompileError,
}

/// A [`Resolution`] as a mathematical value.
pub enum ResolutionModel {
    Verbatim,
    Annotate { ty: Seq<char> },
    CompileError,
}

impl View for Resolution {
    type V = ResolutionModel;

    open spec fn view(&self) -> ResolutionModel {
        match *self {
            Resolution::Verbatim => ResolutionModel::Verbatim,
            Resolution::Annotate(ty) => ResolutionModel::Annotate { ty: ty@ },
            Resolution::CompileError => ResolutionModel::CompileError,
        }
    }
}

/// The message of the compile error for a closure whose type cannot be named.
pub const GIVE_UP_MESSAGE: &'static str =
    "rayonette: annotate the closure's input type (for example `|x: u32|`) or pass a named function. Its type cannot be recovered at this call site";

/// A task argument.
#[derive(Debug, Clone, PartialEq, Eq)]
pub enum TaskArg {
    /// A path, with the name of its last segment.
    Function(String),
    /// A closure, with the annotation of each parameter.
    Closure(Vec<Option<String>>),
    /// Any other expression.
    Other,
}

/// How a task argument is resolved: a closure has its recovered type written in,
/// anything else passes as it stands.
pub open spec fn resolution(task: TaskArg, receiver: Receiver, bindings: Seq<Binding>) -> ResolutionModel {
    match task {
        TaskArg::Closure(params) => match recovered(params@, receiver, bindings) {
            RecoveredModel::Annotated { .. } => ResolutionModel::Verbatim,
            RecoveredModel::Binding { ty } => ResolutionModel::Annotate { ty },
            RecoveredModel::Receiver { ty } => ResolutionModel::Annotate { ty },
            RecoveredModel::GiveUp => ResolutionModel::CompileError,
        },
        _ => ResolutionModel::Verbatim,
    }
}

/// How a task argument is resolved.
pub fn resolve_task(task: &TaskArg, receiver: &Receiver, bindings: &Vec<Binding>) -> (r: Resolution)
    ensures
        r@ == resolution(*task, *receiver, bindings@),
{
    match task {
        TaskArg::Closure(params) => match recover_input_type(params, receiver, bindings) {
            Recovered::Annotated(_) => Resolution::Verbatim,
            Recovered::Binding(ty) => Resolution::Annotate(ty),
            Recovered::Receiver(ty) => Resolution::Annotate(ty),
            Recovered::GiveUp => Resolution::CompileError,
        },
        _ => Resolution::Verbatim,
    }
}

/// Whether a method call carries a task.
pub fn is_task_call(method: &str, args: usize) -> (r: bool)
    ensures
        r == carries_task(method@, args),
        r == ((method@ == "net_map"@ || method@ == "net_map_with_fleet"@) && args > 0),
{
    (same(method, "net_map") || same(method, "net_map_with_fleet")) && args > 0
}

/// Whether a method call carries a task.
pub open spec fn carries_task(method: Seq<char>, args: usize) -> bool {
    (method == "net_map"@ || method == "net_map_with_fleet"@) && args > 0
}

/// One rewritten call site.
#[derive(Debug)]
pub struct Rewrite {
    /// The task's key, at the call site and in the registration alike.
    pub key: String,
    /// The method called instead.
    pub terminal: &'static str,
    /// How the task argument is written, in both places alike.
    pub resolution: Resolution,
}

/// The bindings in scope at a point of a function's body.
pub struct ScopeModel {
    /// The bindings, a later one shadowing an earlier one of its name.
    pub bindings: Seq<Binding>,
    /// Per open block, outermost first, how many bindings preceded it.
    pub blocks: Seq<usize>,
}

/// What changes the bindings in scope.
pub enum ScopeStep {
    /// A block begins.
    Enter,
    /// A name is bound.
    Declare { binding: Binding },
    /// The innermost block ends.
    Leave,
}

impl ScopeModel {
    /// The scope after one more step: a block's bindings end with it. Where no block
    /// is open, none ends.
    pub open spec fn after(self, step: ScopeStep) -> ScopeModel {
        match step {
            ScopeStep::Enter => ScopeModel {
                blocks: self.blocks.push(self.bindings.len() as usize),
                ..self
            },
            ScopeStep::Declare { binding } => ScopeModel {
                bindings: self.bindings.push(binding),
                ..self
            },
            ScopeStep::Leave => if self.blocks.len() == 0 {
                self
            } else {
                ScopeModel {
                    bindings: if self.blocks.last() < self.bindings.len() {
                        self.bindings.take(self.blocks.last() as int)
                    } else {
                        self.bindings
                    },
                    blocks: self.blocks.drop_last(),
                }
            },
        }
    }

    /// The scope after the first `n` of `steps`.
    pub open spec fn through(self, steps: Seq<ScopeStep>, n: int) -> ScopeModel
        decreases n,
    {
        if n <= 0 {
            self
        } else {
            self.through(steps, n - 1).after(steps[n - 1])
        }
    }
}

/// How many blocks the first `n` of `steps` begin and do not end.
pub open spec fn depth(steps: Seq<ScopeStep>, n: int) -> int
    decreases n,
{
    if n <= 0 {
        0
    } else {
        depth(steps, n - 1) + match steps[n - 1] {
            ScopeStep::Enter => 1int,
            ScopeStep::Declare { .. } => 0int,
            ScopeStep::Leave => -1int,
        }
    }
}

/// Whether `steps` end every block that they begin, and no other.
pub open spec fn balanced(steps: Seq<ScopeStep>) -> bool {
    &&& depth(steps, steps.len() as int) == 0
    &&& forall|n: int| 0 <= n <= steps.len() ==> #[trigger] depth(steps, n) >= 0
}

/// Walks the call sites of one function in source order, keeping the bindings in
/// scope.
#[derive(Debug)]
pub struct Rewriter {
    /// The function's name.
    pub scope: String,
    /// How many call sites were rewritten.
    pub ordinal: usize,
    /// The bindings in scope.
    pub bindings: Vec<Binding>,
    /// Per open block, outermost first, how many bindings preceded it.
    pub blocks: Vec<usize>,
}

/// The name of the last path segment of a named function.
pub open spec fn function_name(task: TaskArg) -> Option<Seq<char>> {
    match task {
        TaskArg::Function(name) => Some(name@),
        _ => None,
    }
}

impl Rewriter {
    /// The bindings in scope and the open blocks.
    pub open spec fn in_scope(&self) -> ScopeModel {
        ScopeModel { bindings: self.bindings@, blocks: self.blocks@ }
    }

    /// Begin with the function `scope`.
    pub fn new(scope: &str) -> (r: Rewriter)
        ensures
            r.scope@ == scope@,
            r.ordinal == 0,
            r.in_scope() == (ScopeModel { bindings: Seq::empty(), blocks: Seq::empty() }),
    {
        Rewriter {
            scope: scope.to_owned(),
            ordinal: 0,
            bindings: Vec::new(),
            blocks: Vec::new(),
        }
    }

    /// A typed binding comes into scope.
    pub fn bind(&mut self, binding: Binding)
        ensures
            final(self).in_scope() == old(self).in_scope().after(ScopeStep::Declare { binding }),
            final(self).scope == old(self).scope,
            final(self).ordinal == old(self).ordinal,
    {
        self.bindings.push(binding);
    }

    /// A binding without a declared type comes into scope and hides the earlier ones
    /// of its name.
    pub fn shadow(&mut self, name: String)
        ensures
            final(self).in_scope() == old(self).in_scope().after(
                ScopeStep::Declare { binding: Binding { name, ty: TypeShape::Plain } },
            ),
            final(self).scope == old(self).scope,
            final(self).ordinal == old(self).ordinal,
    {
        self.bindings.push(Binding { name, ty: TypeShape::Plain });
    }

    /// A block begins.
    pub fn enter(&mut self)
        ensures
            final(self).in_scope() == old(self).in_scope().after(ScopeStep::Enter),
            final(self).scope == old(self).scope,
            final(self).ordinal == old(self).ordinal,
    {
        self.blocks.push(self.bindings.len());
    }

    /// The innermost block ends, and what was bound in it goes out of scope.
    pub fn leave(&mut self)
        ensures
            final(self).in_scope() == old(self).in_scope().after(ScopeStep::Leave),
            final(self).scope == old(self).scope,
            final(self).ordinal == old(self).ordinal,
    {
        match self.blocks.pop() {
            Some(from) => {
                if from < self.bindings.len() {
                    self.bindings.truncate(from);
                    assert(self.bindings@ =~= old(self).bindings@.take(from as int));
                }
                assert(self.blocks@ =~= old(self).blocks@.drop_last());
            },
            None => {},
        }
    }

    /// The next method call: if it carries a task it is rewritten and counted,
    /// else it is left alone. `tokens` are the task's tokens as displayed.
    pub fn on_call(
        &mut self,
        method: &str,
        args: usize,
        task: &TaskArg,
        tokens: &str,
        receiver: &Receiver,
    ) -> (r: Option<Rewrite>)
        requires
            old(self).ordinal < usize::MAX,
        ensures
            final(self).scope == old(self).scope,
            final(self).in_scope() == old(self).in_scope(),
            match r {
                None => !carries_task(method@, args) && final(self).ordinal == old(self).ordinal,
                Some(rewrite) => {
                    &&& carries_task(method@, args)
                    &&& method@ == "net_map"@ || method@ == "net_map_with_fleet"@
                    &&& final(self).ordinal == old(self).ordinal + 1
                    &&& rewrite.key@ == key_of(
                        old(self).scope@,
                        function_name(*task),
                        tokens@,
                        old(self).ordinal as nat,
                    )
                    &&& rewrite.terminal@ == if method@ == "net_map_with_fleet"@ {
                        "net_map_task_with_fleet"@
                    } else {
                        "net_map_task"@
                    }
                    &&& rewrite.resolution@ == resolution(*task, *receiver, old(self).bindings@)
                },
            },
    {
        if !is_task_call(method, args) {
            return None;
        }
        let key = match task {
            TaskArg::Function(name) => task_key(
                self.scope.as_str(),
                Some(name.as_str()),
                tokens,
                self.ordinal,
            ),
            _ => task_key(self.scope.as_str(), None, tokens, self.ordinal),
        };
        let terminal = if same(method, "net_map_with_fleet") {
            "net_map_task_with_fleet"
        } else {
            "net_map_task"
        };
        let resolution = resolve_task(task, receiver, &self.bindings);
        self.ordinal += 1;
        Some(Rewrite { key, terminal, resolution })
    }
}

/// What the user wrote is never overridden: an annotated closure of one parameter is
/// passed as it stands whatever the receiver suggests.
pub proof fn law_annotations_win(
    params: Seq<Option<String>>,
    receiver: Receiver,
    bindings: Seq<Binding>,
)
    requires
        params.len() == 1,
        params[0] is Some,
    ensures
        recovered(params, receiver, bindings) == (RecoveredModel::Annotated {
            ty: params[0]->0@,
        }),
{
}

/// A closure is refused only when nothing names its type; one of several parameters
/// always is.
pub proof fn law_giving_up_is_the_last_resort(
    params: Seq<Option<String>>,
    receiver: Receiver,
    bindings: Seq<Binding>,
)
    ensures
        recovered(params, receiver, bindings) is GiveUp <==> params.len() != 1 || (params[0] is None
            && bound_to(receiver, bindings) is None && shown_by(receiver) is None),
{
}

/// What holds inside a block: everything from before it is still there.
proof fn lemma_inside_a_block(scope: ScopeModel, inner: Seq<ScopeStep>, n: int)
    requires
        0 <= n <= inner.len(),
        scope.bindings.len() + inner.len() <= usize::MAX,
        forall|k: int| 0 <= k <= inner.len() ==> #[trigger] depth(inner, k) >= 0,
    ensures
        ({
            let now = scope.after(ScopeStep::Enter).through(inner, n);
            let outer = scope.blocks.len() as int;
            &&& scope.bindings.len() <= now.bindings.len() <= scope.bindings.len() + n
            &&& now.bindings.take(scope.bindings.len() as int) == scope.bindings
            &&& now.blocks.len() == outer + 1 + depth(inner, n)
            &&& now.blocks.take(outer) == scope.blocks
            &&& now.blocks[outer] == scope.bindings.len()
            &&& forall|i: int|
                outer <= i < now.blocks.len() ==> scope.bindings.len() <= #[trigger] now.blocks[i]
        }),
    decreases n,
{
    let start = scope.after(ScopeStep::Enter);
    let outer = scope.blocks.len() as int;
    if n == 0 {
        assert(start.bindings.take(scope.bindings.len() as int) =~= scope.bindings);
        assert(start.blocks.take(outer) =~= scope.blocks);
    } else {
        lemma_inside_a_block(scope, inner, n - 1);
        let before = start.through(inner, n - 1);
        let now = start.through(inner, n);
        assert(depth(inner, n) >= 0);
        assert(depth(inner, n - 1) >= 0);
        assert(now.bindings.take(scope.bindings.len() as int) =~= before.bindings.take(
            scope.bindings.len() as int,
        ));
        assert(now.blocks.take(outer) =~= before.blocks.take(outer));
    }
}

/// What is bound in a block stays in it: once it ends, whatever was bound and
/// whatever blocks were opened and ended inside, the bindings in scope are those
/// from before it.
pub proof fn law_a_block_keeps_its_bindings(scope: ScopeModel, inner: Seq<ScopeStep>)
    requires
        balanced(inner),
        scope.bindings.len() + inner.len() <= usize::MAX,
    ensures
        scope.after(ScopeStep::Enter).through(inner, inner.len() as int).after(ScopeStep::Leave)
            == scope,
{
    lemma_inside_a_block(scope, inner, inner.len() as int);
    let now = scope.after(ScopeStep::Enter).through(inner, inner.len() as int);
    let end = now.after(ScopeStep::Leave);
    assert(end.bindings =~= scope.bindings);
    assert(end.blocks =~= scope.blocks);
}

/// A name bound anew without a declared type gives no type, whatever was bound to
/// it before: a bare closure over it is refused.
pub proof fn law_an_untyped_binding_hides(name: String, bindings: Seq<Binding>)
    ensures
        bound_to(
            Receiver::Name(name),
            bindings.push(Binding { name, ty: TypeShape::Plain }),
        ) is None,
        recovered(
            seq![None],
            Receiver::Name(name),
            bindings.push(Binding { name, ty: TypeShape::Plain }),
        ) is GiveUp,
{
    let all = bindings.push(Binding { name, ty: TypeShape::Plain });
    assert(bound_at(all, name@, all.len() as int) == bindings.len());
    assert(element_of(TypeShape::Plain) is None);
}

/// A name that nothing in scope binds gives no type.
pub proof fn law_an_unbound_name_gives_no_type(name: String, bindings: Seq<Binding>)
    requires
        forall|i: int| 0 <= i < bindings.len() ==> (#[trigger] bindings[i]).name@ != name@,
    ensures
        recovered(seq![None], Receiver::Name(name), bindings) is GiveUp,
{
    lemma_unbound(name@, bindings, bindings.len() as int);
}

proof fn lemma_unbound(name: Seq<char>, bindings: Seq<Binding>, n: int)
    requires
        n <= bindings.len(),
        forall|i: int| 0 <= i < bindings.len() ==> (#[trigger] bindings[i]).name@ != name,
    ensures
        bound_at(bindings, name, n) < 0,
    decreases n,
{
    if n > 0 {
        lemma_unbound(name, bindings, n - 1);
    }
}

proof fn lemma_hex_tail_length(h: nat, n: nat)
    ensures
        hex_tail(h, n).len() == n,
    decreases n,
{
    if n > 0 {
        lemma_hex_tail_length(h / 16, (n - 1) as nat);
    }
}

proof fn lemma_decimal_injective(a: nat, b: nat)
    requires
        decimal(a) == decimal(b),
    ensures
        a == b,
    decreases a,
{
    lemma_decimal_length(a);
    lemma_decimal_length(b);
    let da = decimal(a);
    let db = decimal(b);
    if a < 10 && b < 10 {
        assert(da[0] == db[0]);
        lemma_digit_injective(a, b);
    } else if a >= 10 && b >= 10 {
        assert(da.last() == db.last());
        lemma_digit_injective(a % 10, b % 10);
        assert(da.drop_last() =~= decimal(a / 10));
        assert(db.drop_last() =~= decimal(b / 10));
        lemma_decimal_injective(a / 10, b / 10);
    }
}

proof fn lemma_digit_injective(a: nat, b: nat)
    requires
        a < 10,
        b < 10,
        crate::text::digit(a) == crate::text::digit(b),
    ensures
        a == b,
{
    let x = (48 + a) as u8;
    let y = (48 + b) as u8;
    assert((x as char) as u32 == x as u32);
    assert((y as char) as u32 == y as u32);
}

proof fn lemma_decimal_length(n: nat)
    ensures
        n < 10 ==> decimal(n).len() == 1,
        n >= 10 ==> decimal(n).len() >= 2,
    decreases n,
{
    if n >= 10 {
        lemma_decimal_length(n / 10);
    }
}

/// Two closures of one scope never share a key, even where their tokens are the
/// same: their positions tell them apart.
pub proof fn law_positions_keep_keys_apart(
    scope: Seq<char>,
    tokens: Seq<char>,
    other_tokens: Seq<char>,
    ordinal: nat,
    other: nat,
)
    requires
        ordinal != other,
    ensures
        key_of(scope, None, tokens, ordinal) != key_of(scope, None, other_tokens, other),
{
    let a = key_of(scope, None, tokens, ordinal);
    let b = key_of(scope, None, other_tokens, other);
    let head = scope + "::task#"@;
    let ha = hashed(tokens);
    let hb = hashed(other_tokens);
    let bytes_a = vstd::utf8::encode_utf8(tokens);
    let bytes_b = vstd::utf8::encode_utf8(other_tokens);
    lemma_hex_tail_length(fnv1a(bytes_a, bytes_a.len() as int) as nat, 16);
    lemma_hex_tail_length(fnv1a(bytes_b, bytes_b.len() as int) as nat, 16);
    reveal_strlit("#");
    if a == b {
        let n = head.len() as int;
        let m = a.len() - 17;
        assert(a =~= head + decimal(ordinal) + "#"@ + ha);
        assert(b =~= head + decimal(other) + "#"@ + hb);
        assert(a.subrange(n, m) =~= decimal(ordinal));
        assert(b.subrange(n, m) =~= decimal(other));
        lemma_decimal_injective(ordinal, other);
    }
}

/// Whether a bound or element says what type it has: it is an integer with a suffix.
pub open spec fn is_suffixed(literal: Option<Literal>) -> bool {
    literal matches Some(Literal::Int(suffix)) && suffix@.len() > 0
}

/// A bare closure of one parameter over a range with a suffixed bound is never refused:
/// its type is the suffix of the start where that has one, else that of the end. Over a
/// range without any it is refused.
pub proof fn law_a_suffixed_bound_names_the_type(
    start: Option<Literal>,
    end: Option<Literal>,
    bindings: Seq<Binding>,
)
    ensures
        is_suffixed(start) ==> recovered(seq![None], Receiver::Range(start, end), bindings) == (
        RecoveredModel::Receiver { ty: (start->0)->Int_0@ }),
        !is_suffixed(start) && is_suffixed(end) ==> recovered(
            seq![None],
            Receiver::Range(start, end),
            bindings,
        ) == (RecoveredModel::Receiver { ty: (end->0)->Int_0@ }),
        !is_suffixed(start) && !is_suffixed(end) ==> recovered(
            seq![None],
            Receiver::Range(start, end),
            bindings,
        ) == RecoveredModel::GiveUp,
{
}

/// A bare closure of one parameter over a `vec!` literal has the suffix of the first
/// element as its type, and is refused where that has none.
pub proof fn law_a_suffixed_element_names_the_type(first: Option<Literal>, bindings: Seq<Binding>)
    ensures
        is_suffixed(first) ==> recovered(seq![None], Receiver::VecMacro(first), bindings) == (
        RecoveredModel::Receiver { ty: (first->0)->Int_0@ }),
        !is_suffixed(first) ==> recovered(seq![None], Receiver::VecMacro(first), bindings)
            == RecoveredModel::GiveUp,
        recovered(seq![None], Receiver::Other, bindings) == RecoveredModel::GiveUp,
{
}

/// Parentheses around a range or a literal change nothing.
pub proof fn law_parentheses_change_nothing(inner: Box<Receiver>, bindings: Seq<Binding>)
    ensures
        shown_by(Receiver::Paren(inner)) == shown_by(*inner),
        !(*inner is Name) ==> recovered(seq![None], Receiver::Paren(inner), bindings) == recovered(
            seq![None],
            *inner,
            bindings,
        ),
{
}

/// The element type of a container is the first type among its arguments, whatever
/// lifetimes and constants stand before it; without one it has none.
pub proof fn law_the_first_type_is_the_element(args: Vec<GenericArg>, at: int)
    requires
        0 <= at <= args@.len(),
        forall|i: int| 0 <= i < at ==> (#[trigger] args@[i]) is Other,
        at < args@.len() ==> args@[at] is Type,
    ensures
        element_of(TypeShape::Generic(args)) == if at < args@.len() {
            Some(args@[at]->Type_0@)
        } else {
            None
        },
        element_of(TypeShape::Plain) is None,
{
    lemma_first_type(args@, 0, at);
}

proof fn lemma_first_type(args: Seq<GenericArg>, from: int, at: int)
    requires
        0 <= from <= at <= args.len(),
        forall|i: int| from <= i < at ==> (#[trigger] args[i]) is Other,
        at < args.len() ==> args[at] is Type,
    ensures
        first_type(args, from) == if at < args.len() {
            Some(args[at]->Type_0@)
        } else {
            None
        },
    decreases at - from,
{
    if from < at {
        assert(args[from] is Other);
        lemma_first_type(args, from + 1, at);
    }
}

/// A bare closure over a name has the element type of the name's latest binding in
/// scope; where that has none the closure is refused, whatever earlier ones say.
pub proof fn law_the_latest_binding_counts(name: String, bindings: Seq<Binding>, at: int)
    requires
        0 <= at < bindings.len(),
        bindings[at].name@ == name@,
        forall|i: int| at < i < bindings.len() ==> (#[trigger] bindings[i]).name@ != name@,
    ensures
        recovered(seq![None], Receiver::Name(name), bindings) == match element_of(
            bindings[at].ty,
        ) {
            Some(ty) => RecoveredModel::Binding { ty },
            None => RecoveredModel::GiveUp,
        },
{
    lemma_latest(name@, bindings, bindings.len() as int, at);
}

proof fn lemma_latest(name: Seq<char>, bindings: Seq<Binding>, n: int, at: int)
    requires
        0 <= at < n <= bindings.len(),
        bindings[at].name@ == name,
        forall|i: int| at < i < bindings.len() ==> (#[trigger] bindings[i]).name@ != name,
    ensures
        bound_at(bindings, name, n) == at,
    decreases n,
{
    if at < n - 1 {
        assert(bindings[n - 1].name@ != name);
        lemma_latest(name, bindings, n - 1, at);
    }
}

/// A task that is no closure, and a closure that names its type, are passed as they
/// stand; a bare closure whose type is found has it written in; one whose type is not
/// found, or of several parameters or none, is a compile error.
pub proof fn law_how_tasks_are_written(
    params: Vec<Option<String>>,
    name: String,
    receiver: Receiver,
    bindings: Seq<Binding>,
)
    ensures
        resolution(TaskArg::Function(name), receiver, bindings) == ResolutionModel::Verbatim,
        resolution(TaskArg::Other, receiver, bindings) == ResolutionModel::Verbatim,
        params@.len() == 1 && params@[0] is Some ==> resolution(
            TaskArg::Closure(params),
            receiver,
            bindings,
        ) == ResolutionModel::Verbatim,
        params@.len() != 1 ==> resolution(TaskArg::Closure(params), receiver, bindings)
            == ResolutionModel::CompileError,
        params@.len() == 1 && params@[0] is None ==> resolution(
            TaskArg::Closure(params),
            receiver,
            bindings,
        ) == match recovered(seq![None], receiver, bindings) {
            RecoveredModel::Binding { ty } => ResolutionModel::Annotate { ty },
            RecoveredModel::Receiver { ty } => ResolutionModel::Annotate { ty },
            _ => ResolutionModel::CompileError,
        },
{
}

/// The same named function has the same key wherever it is called in a scope, and
/// different scopes, names or token hashes give different keys.
pub proof fn law_named_keys(
    scope: Seq<char>,
    name: Seq<char>,
    other: Seq<char>,
    tokens: Seq<char>,
    other_tokens: Seq<char>,
    ordinal: nat,
    position: nat,
)
    ensures
        key_of(scope, Some(name), tokens, ordinal) == key_of(scope, Some(name), tokens, position),
        hashed(tokens) != hashed(other_tokens) ==> key_of(scope, Some(name), tokens, ordinal)
            != key_of(scope, Some(name), other_tokens, ordinal),
        hashed(tokens) != hashed(other_tokens) ==> key_of(scope, None, tokens, ordinal) != key_of(
            scope,
            None,
            other_tokens,
            ordinal,
        ),
        name != other && name.len() == other.len() ==> key_of(scope, Some(name), tokens, ordinal)
            != key_of(scope, Some(other), tokens, ordinal),
{
    let bytes = vstd::utf8::encode_utf8(tokens);
    let more = vstd::utf8::encode_utf8(other_tokens);
    lemma_hex_tail_length(fnv1a(bytes, bytes.len() as int) as nat, 16);
    lemma_hex_tail_length(fnv1a(more, more.len() as int) as nat, 16);
    let a = key_of(scope, Some(name), tokens, ordinal);
    let b = key_of(scope, Some(name), other_tokens, ordinal);
    assert(a.skip(a.len() - 16) =~= hashed(tokens));
    assert(b.skip(b.len() - 16) =~= hashed(other_tokens));
    let c = key_of(scope, None, tokens, ordinal);
    let d = key_of(scope, None, other_tokens, ordinal);
    assert(c.skip(c.len() - 16) =~= hashed(tokens));
    assert(d.skip(d.len() - 16) =~= hashed(other_tokens));
    if name.len() == other.len() {
        let e = key_of(scope, Some(other), tokens, ordinal);
        let from = (scope + "::"@).len() as int;
        assert(a.subrange(from, from + name.len()) =~= name);
        assert(e.subrange(from, from + other.len()) =~= other);
    }
}

/// A binding is added behind those in scope; a block begins with what is in scope; and where
/// no block is open, ending one changes nothing.
pub proof fn law_what_scope_steps_do(scope: ScopeModel, binding: Binding)
    requires
        scope.bindings.len() <= usize::MAX,
    ensures
        scope.after(ScopeStep::Declare { binding }).bindings == scope.bindings.push(binding),
        scope.after(ScopeStep::Declare { binding }).blocks == scope.blocks,
        scope.after(ScopeStep::Enter).bindings == scope.bindings,
        scope.blocks.len() == 0 ==> scope.after(ScopeStep::Leave) == scope,
{
}

/// The hash goes byte by byte, mixing each in and multiplying by the prime, and is written as
/// sixteen digits, the last for its lowest four bits.
pub proof fn law_the_hash_goes_byte_by_byte(bytes: Seq<u8>, n: int, h: nat, digits: nat)
    requires
        0 <= n < bytes.len(),
    ensures
        fnv1a(bytes, 0) == 0xcbf2_9ce4_8422_2325u64,
        fnv1a(bytes, n + 1) == (((fnv1a(bytes, n) ^ (bytes[n] as u64)) as int)
            * 0x0000_0100_0000_01b3) % 0x1_0000_0000_0000_0000,
        hex_tail(h, 0).len() == 0,
        hex_tail(h, digits + 1).len() == digits + 1,
        hex_tail(h, digits + 1).last() == hex_digit((h % 16) as int),
        hex_tail(h, digits + 1).drop_last() == hex_tail(h / 16, digits),
{
    lemma_hex_tail_length(h, digits + 1);
    lemma_hex_tail_length(h / 16, digits);
    assert(hex_tail(h, digits + 1).drop_last() =~= hex_tail(h / 16, digits));
}

} // verus!
