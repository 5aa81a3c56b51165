//! Syntax tree produced by the parser, together with the mathematical
//! values (views) that contracts speak of.
use vstd::prelude::*;

verus! {

/// A reference to an environment variable: `$NAME`, `${NAME}` or
/// `${NAME:-default}`.
#[derive(Debug, Clone, PartialEq)]
pub struct EnvRef {
    pub name: String,
    pub default: Option<String>,
}

/// One piece of a word.
#[derive(Debug, Clone, PartialEq)]
pub enum WordSegment {
    /// Text taken as it is.
    Literal(String),
    /// A variable reference, resolved when the word is expanded.
    EnvVar(EnvRef),
    /// A command substitution `$(...)`, by its id in the result's table.
    CommandSubst(u32),
}

/// A word: the segments that, expanded and joined, give one argument.
#[derive(Debug, Clone, PartialEq)]
pub struct ParsedWord {
    pub segments: Vec<WordSegment>,
}

/// The stream a redirection applies to.
#[derive(Debug, Clone, Copy, PartialEq, Eq, Structural)]
pub enum RedirectKind {
    /// `<`
    Stdin,
    /// `>`
    Stdout,
    /// `>>`
    StdoutAppend,
}

/// A redirection of one stream to the file that `target` names.
#[derive(Debug, Clone, PartialEq)]
pub struct Redirect {
    pub kind: RedirectKind,
    pub target: ParsedWord,
}

/// A command with its arguments (the command name first) and redirections.
#[derive(Debug, Clone, PartialEq)]
pub struct SimpleCommand {
    pub args: Vec<ParsedWord>,
    pub redirects: Vec<Redirect>,
}

/// Commands joined by `|`.
#[derive(Debug, Clone, PartialEq)]
pub struct Pipeline {
    pub commands: Vec<SimpleCommand>,
}

/// How an element depends on the exit status of the one before it.
#[derive(Debug, Clone, Copy, PartialEq, Eq, Structural)]
pub enum Connector {
    /// Runs unconditionally (first element, or after a newline).
    Unconditional,
    /// `&&`: runs when the previous element succeeded.
    And,
    /// `||`: runs when the previous element failed.
    Or,
}

/// A pipeline with the connector that precedes it.
#[derive(Debug, Clone, PartialEq)]
pub struct ConditionalElement {
    pub connector: Connector,
    pub pipeline: Pipeline,
}

/// The raw source of one command substitution, under its id.
#[derive(Debug, Clone, PartialEq)]
pub struct CommandSubstitution {
    pub id: u32,
    pub input: String,
}

/// Everything one call of the parser produces.
#[derive(Debug, Clone, PartialEq)]
pub struct ParseResult {
    pub elements: Vec<ConditionalElement>,
    pub substitutions: Vec<CommandSubstitution>,
}

/// Why the input could not be parsed, and where (an offset into the input).
#[derive(Debug, Clone, PartialEq)]
pub struct ParseError {
    pub message: String,
    pub position: u32,
}

// ---------------------------------------------------------------------------
// Views

/// The mathematical value of a [`WordSegment`].
pub enum SegmentView {
    Literal(Seq<char>),
    EnvVar(Seq<char>, Option<Seq<char>>),
    CommandSubst(nat),
}

pub type WordView = Seq<SegmentView>;

pub struct RedirectView {
    pub kind: RedirectKind,
    pub target: WordView,
}

pub struct CommandView {
    pub args: Seq<WordView>,
    pub redirects: Seq<RedirectView>,
}

pub type PipelineView = Seq<CommandView>;

pub struct ElementView {
    pub connector: Connector,
    pub pipeline: PipelineView,
}

pub struct ResultView {
    pub elements: Seq<ElementView>,
    /// The bodies of the substitutions, each at the index that is its id.
    pub substitutions: Seq<Seq<char>>,
}

pub open spec fn option_view(o: Option<String>) -> Option<Seq<char>> {
    match o {
        Some(s) => Some(s@),
        None => None,
    }
}

impl View for WordSegment {
    type V = SegmentView;

    open spec fn view(&self) -> SegmentView {
        match self {
            WordSegment::Literal(s) => SegmentView::Literal(s@),
            WordSegment::EnvVar(r) => SegmentView::EnvVar(r.name@, option_view(r.default)),
            WordSegment::CommandSubst(id) => SegmentView::CommandSubst(*id as nat),
        }
    }
}

impl View for ParsedWord {
    type V = WordView;

    open spec fn view(&self) -> WordView {
        self.segments@.map_values(|s: WordSegment| s@)
    }
}

impl View for Redirect {
    type V = RedirectView;

    open spec fn view(&self) -> RedirectView {
        RedirectView { kind: self.kind, target: self.target@ }
    }
}

impl View for SimpleCommand {
    type V = CommandView;

    open spec fn view(&self) -> CommandView {
        CommandView {
            args: self.args@.map_values(|w: ParsedWord| w@),
            redirects: self.redirects@.map_values(|r: Redirect| r@),
        }
    }
}

impl View for Pipeline {
    type V = PipelineView;

    open spec fn view(&self) -> PipelineView {
        self.commands@.map_values(|c: SimpleCommand| c@)
    }
}

impl View for ConditionalElement {
    type V = ElementView;

    open spec fn view(&self) -> ElementView {
        ElementView { connector: self.connector, pipeline: self.pipeline@ }
    }
}

impl View for ParseResult {
    type V = ResultView;

    open spec fn view(&self) -> ResultView {
        ResultView {
            elements: self.elements@.map_values(|e: ConditionalElement| e@),
            substitutions: self.substitutions@.map_values(|s: CommandSubstitution| s.input@),
        }
    }
}

/// Every entry of the substitution table carries its own index as id.
pub open spec fn ids_in_order(subs: Seq<CommandSubstitution>) -> bool {
    forall|k: int| 0 <= k < subs.len() ==> #[trigger] subs[k].id == k
}

/// A word of a single empty literal, or of no segment at all.
pub open spec fn is_empty_word(w: WordView) -> bool {
    w.len() == 0 || (w.len() == 1 && w[0] == SegmentView::Literal(Seq::empty()))
}

// ---------------------------------------------------------------------------
// Constructors and queries

impl ParsedWord {
    /// A word of one literal segment.
    pub fn literal(s: &str) -> (r: ParsedWord)
        ensures
            r@ == seq![SegmentView::Literal(s@)],
    {
        let r = ParsedWord { segments: vec![WordSegment::Literal(s.to_owned())] };
        assert(r@ =~= seq![SegmentView::Literal(s@)]);
        r
    }

    /// Whether the word expands to the empty string by construction.
    pub fn is_empty(&self) -> (r: bool)
        ensures
            r == is_empty_word(self@),
    {
        if self.segments.len() == 0 {
            return true;
        }
        if self.segments.len() != 1 {
            return false;
        }
        match &self.segments[0] {
            WordSegment::Literal(s) => {
                let e = s.as_str().is_empty();
                assert(e ==> s@ =~= Seq::<char>::empty());
                e
            },
            _ => false,
        }
    }
}

impl SimpleCommand {
    /// A command with no argument and no redirection.
    pub fn new() -> (r: SimpleCommand)
        ensures
            r@.args.len() == 0,
            r@.redirects.len() == 0,
    {
        SimpleCommand { args: Vec::new(), redirects: Vec::new() }
    }

    /// Whether the command has no argument.
    pub fn is_empty(&self) -> (r: bool)
        ensures
            r == (self@.args.len() == 0),
    {
        self.args.len() == 0
    }
}

impl Default for SimpleCommand {
    fn default() -> (r: SimpleCommand)
        ensures
            r@.args.len() == 0,
            r@.redirects.len() == 0,
    {
        SimpleCommand::new()
    }
}

impl Pipeline {
    /// A pipeline with no command.
    pub fn new() -> (r: Pipeline)
        ensures
            r@.len() == 0,
    {
        Pipeline { commands: Vec::new() }
    }

    /// A pipeline of one command.
    pub fn single(cmd: SimpleCommand) -> (r: Pipeline)
        ensures
            r@ == seq![cmd@],
    {
        let r = Pipeline { commands: vec![cmd] };
        assert(r@ =~= seq![cmd@]);
        r
    }
}

impl Default for Pipeline {
    fn default() -> (r: Pipeline)
        ensures
            r@.len() == 0,
    {
        Pipeline::new()
    }
}

impl ParseResult {
    /// A result with no element and no substitution.
    pub fn new() -> (r: ParseResult)
        ensures
            r@.elements.len() == 0,
            r@.substitutions.len() == 0,
    {
        ParseResult { elements: Vec::new(), substitutions: Vec::new() }
    }

    /// A result of one element, holding `cmd` alone, with no connector.
    pub fn single(cmd: SimpleCommand) -> (r: ParseResult)
        ensures
            r@.elements == seq![ElementView { connector: Connector::Unconditional, pipeline: seq![cmd@] }],
            r@.substitutions.len() == 0,
    {
        let r = ParseResult {
            elements: vec![
                ConditionalElement { connector: Connector::Unconditional, pipeline: Pipeline::single(cmd) },
            ],
            substitutions: Vec::new(),
        };
        assert(r@.elements =~= seq![
            ElementView { connector: Connector::Unconditional, pipeline: seq![cmd@] },
        ]);
        r
    }
}

impl Default for ParseResult {
    fn default() -> (r: ParseResult)
        ensures
            r@.elements.len() == 0,
            r@.substitutions.len() == 0,
    {
        ParseResult::new()
    }
}

impl ParseError {
    /// An error with the given message and position.
    pub fn new(message: &str, position: u32) -> (r: ParseError)
        ensures
            r.message@ == message@,
            r.position == position,
    {
        ParseError { message: message.to_owned(), position }
    }
}

} // verus!
