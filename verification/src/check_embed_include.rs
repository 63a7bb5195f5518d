//! The rules for embedded and included text.
use crate::analyzer_error::AnalyzerError;
use crate::symbol::{PathId, Token, TokenSource};
use vstd::prelude::*;

verus! {

/// Whether a declaration is entered or left.
#[derive(Default, Clone, Copy, Debug, PartialEq, Eq, Structural)]
pub enum HandlerPoint {
    #[default]
    Before,
    After,
}

/// The declaration of embedded text: the way in which it is embedded, and its language.
pub struct EmbedDeclaration {
    pub way: Token,
    pub lang: Token,
}

/// The declaration of included text: the way in which it is included, and the file in quotes.
pub struct IncludeDeclaration {
    pub way: Token,
    pub string_literal: Token,
}

/// A file to read: `path` is taken from the directory of the file `source`, unless it is absolute.
#[derive(Debug, PartialEq, Eq)]
pub struct IncludeRequest {
    pub source: PathId,
    pub path: String,
}

pub open spec fn is_embed_way(way: Seq<char>) -> bool {
    way == "inline"@ || way == "cocotb"@
}

pub open spec fn is_embed_lang(lang: Seq<char>) -> bool {
    lang == "sv"@ || lang == "py"@
}

pub open spec fn is_include_way(way: Seq<char>) -> bool {
    way == "inline"@ || way == "cocotb"@
}

/// What may be embedded in a component.
pub open spec fn is_component_embed(way: Seq<char>, lang: Seq<char>) -> bool {
    way == "inline"@ && lang == "sv"@
}

pub open spec fn unknown_way_errors(arg: EmbedDeclaration) -> Seq<AnalyzerError> {
    if is_embed_way(arg.way.text@) {
        Seq::empty()
    } else {
        seq![AnalyzerError::UnknownEmbedWay { way: arg.way.text, token: arg.way }]
    }
}

pub open spec fn unknown_lang_errors(arg: EmbedDeclaration) -> Seq<AnalyzerError> {
    if is_embed_lang(arg.lang.text@) {
        Seq::empty()
    } else {
        seq![AnalyzerError::UnknownEmbedLang { lang: arg.lang.text, token: arg.lang }]
    }
}

pub open spec fn component_errors(in_component: bool, arg: EmbedDeclaration) -> Seq<AnalyzerError> {
    if in_component && !is_component_embed(arg.way.text@, arg.lang.text@) {
        seq![
            AnalyzerError::InvalidEmbed {
                way: arg.way.text,
                lang: arg.lang.text,
                token: arg.way,
            },
        ]
    } else {
        Seq::empty()
    }
}

/// What is wrong with a declaration of embedded text.
pub open spec fn embed_errors(in_component: bool, arg: EmbedDeclaration) -> Seq<AnalyzerError> {
    unknown_way_errors(arg) + unknown_lang_errors(arg) + component_errors(in_component, arg)
}

/// What is wrong with a declaration of included text before the file is read.
pub open spec fn include_errors(arg: IncludeDeclaration) -> Seq<AnalyzerError> {
    if is_include_way(arg.way.text@) {
        Seq::empty()
    } else {
        seq![AnalyzerError::UnknownIncludeWay { way: arg.way.text, token: arg.way }]
    }
}

/// The text begins and ends with a quote.
pub open spec fn is_quoted(text: Seq<char>) -> bool {
    text.len() >= 2 && text[0] == '"' && text.last() == '"'
}

/// The text without its first and its last character.
pub open spec fn unquoted(text: Seq<char>) -> Seq<char> {
    text.subrange(1, text.len() - 1)
}

fn is_text(text: &String, expected: &str) -> (same: bool)
    ensures
        same == (text@ == expected@),
{
    *text == expected.to_owned()
}

/// The check of embedded and included text. Declarations are handed to it in the order in which
/// they are entered and left.
pub struct CheckEmbedInclude {
    pub errors: Vec<AnalyzerError>,
    point: HandlerPoint,
    in_component: bool,
}

/// The state of the check.
#[verifier::ext_equal]
pub struct CheckEmbedIncludeView {
    /// What was found so far.
    pub errors: Seq<AnalyzerError>,
    /// Whether the next declaration is entered or left.
    pub point: HandlerPoint,
    /// The next declaration stands in a module, an interface or a package.
    pub in_component: bool,
}

impl CheckEmbedIncludeView {
    /// After a module, an interface or a package was entered or left.
    pub open spec fn with_component(self) -> CheckEmbedIncludeView {
        CheckEmbedIncludeView { in_component: self.point is Before, ..self }
    }

    /// After errors were found in a declaration that is entered; nothing is looked at when it is
    /// left.
    pub open spec fn with_errors(self, errors: Seq<AnalyzerError>) -> CheckEmbedIncludeView {
        if self.point is Before {
            CheckEmbedIncludeView { errors: self.errors + errors, ..self }
        } else {
            self
        }
    }
}

impl View for CheckEmbedInclude {
    type V = CheckEmbedIncludeView;

    closed spec fn view(&self) -> CheckEmbedIncludeView {
        CheckEmbedIncludeView {
            errors: self.errors@,
            point: self.point,
            in_component: self.in_component,
        }
    }
}

impl CheckEmbedInclude {
    pub fn new() -> (check: CheckEmbedInclude)
        ensures
            check@ == (CheckEmbedIncludeView {
                errors: Seq::empty(),
                point: HandlerPoint::Before,
                in_component: false,
            }),
    {
        CheckEmbedInclude {
            errors: Vec::new(),
            point: HandlerPoint::Before,
            in_component: false,
        }
    }

    /// Notes whether the next declaration is entered or left.
    pub fn set_point(&mut self, p: HandlerPoint)
        ensures
            final(self)@ == (CheckEmbedIncludeView { point: p, ..old(self)@ }),
    {
        self.point = p;
    }

    /// Whether the next declaration is entered or left.
    pub fn point(&self) -> (point: HandlerPoint)
        ensures
            point == self@.point,
    {
        self.point
    }

    fn component_declaration(&mut self)
        ensures
            final(self)@ == old(self)@.with_component(),
    {
        match self.point {
            HandlerPoint::Before => {
                self.in_component = true;
            },
            HandlerPoint::After => {
                self.in_component = false;
            },
        }
    }

    /// A module is entered or left.
    pub fn module_declaration(&mut self)
        ensures
            final(self)@ == old(self)@.with_component(),
    {
        self.component_declaration();
    }

    /// An interface is entered or left.
    pub fn interface_declaration(&mut self)
        ensures
            final(self)@ == old(self)@.with_component(),
    {
        self.component_declaration();
    }

    /// A package is entered or left.
    pub fn package_declaration(&mut self)
        ensures
            final(self)@ == old(self)@.with_component(),
    {
        self.component_declaration();
    }

    /// Checks a declaration of embedded text when it is entered.
    pub fn embed_declaration(&mut self, arg: &EmbedDeclaration)
        ensures
            final(self)@ == old(self)@.with_errors(embed_errors(old(self)@.in_component, *arg)),
    {
        if let HandlerPoint::Before = self.point {
            let way: &String = &arg.way.text;
            let lang: &String = &arg.lang.text;

            if !(is_text(way, "inline") || is_text(way, "cocotb")) {
                self.errors.push(
                    AnalyzerError::UnknownEmbedWay { way: way.clone(), token: arg.way.clone() },
                );
            }
            assert(self.errors@ =~= old(self).errors@ + unknown_way_errors(*arg));

            if !(is_text(lang, "sv") || is_text(lang, "py")) {
                self.errors.push(
                    AnalyzerError::UnknownEmbedLang { lang: lang.clone(), token: arg.lang.clone() },
                );
            }
            assert(self.errors@ =~= old(self).errors@ + unknown_way_errors(*arg)
                + unknown_lang_errors(*arg));

            if self.in_component && (!is_text(way, "inline") || !is_text(lang, "sv")) {
                self.errors.push(
                    AnalyzerError::InvalidEmbed {
                        way: way.clone(),
                        lang: lang.clone(),
                        token: arg.way.clone(),
                    },
                );
            }
            assert(self.errors@ =~= old(self).errors@ + embed_errors(self.in_component, *arg));
        }
    }

    /// Checks a declaration of included text when it is entered, and returns the file that has to be
    /// read, if the declaration stands in a file.
    pub fn include_declaration(&mut self, arg: &IncludeDeclaration) -> (request: Option<
        IncludeRequest,
    >)
        requires
            old(self)@.point is Before ==> is_quoted(arg.string_literal.text@),
        ensures
            final(self)@ == old(self)@.with_errors(include_errors(*arg)),
            request is Some <==> old(self)@.point is Before
                && arg.way.source is File,
            request matches Some(file) ==> file.source == arg.way.source->path && file.path@
                == unquoted(arg.string_literal.text@),
    {
        if let HandlerPoint::Before = self.point {
            let way: &String = &arg.way.text;
            if !(is_text(way, "inline") || is_text(way, "cocotb")) {
                self.errors.push(
                    AnalyzerError::UnknownIncludeWay { way: way.clone(), token: arg.way.clone() },
                );
            }
            assert(self.errors@ =~= old(self).errors@ + include_errors(*arg));

            let literal: &str = arg.string_literal.text.as_str();
            let path: &str = literal.substring_char(1, literal.unicode_len() - 1);
            if let TokenSource::File { path: source } = arg.way.source {
                return Some(IncludeRequest { source, path: path.to_owned() });
            }
        }
        None
    }

    /// Notes what came of reading the file of a declaration of included text: `path` is the file
    /// that was read, and `failure` is why it could not be read.
    pub fn include_outcome(
        &mut self,
        arg: &IncludeDeclaration,
        path: String,
        failure: Option<String>,
    )
        ensures
            final(self)@ == (match failure {
                Some(cause) => CheckEmbedIncludeView {
                    errors: old(self)@.errors.push(
                        AnalyzerError::IncludeFailure {
                            name: path,
                            cause,
                            token: arg.string_literal,
                        },
                    ),
                    ..old(self)@
                },
                None => old(self)@,
            }),
    {
        if let Some(cause) = failure {
            self.errors.push(
                AnalyzerError::IncludeFailure {
                    name: path,
                    cause,
                    token: arg.string_literal.clone(),
                },
            );
        }
    }
}

impl Default for CheckEmbedInclude {
    fn default() -> (check: CheckEmbedInclude)
        ensures
            check@ == (CheckEmbedIncludeView {
                errors: Seq::empty(),
                point: HandlerPoint::Before,
                in_component: false,
            }),
    {
        Self::new()
    }
}

/// The path of a file that is given as `file://` and its path.
pub fn strip_file_scheme(base: &str) -> (rest: Option<String>)
    ensures
        rest is Some <==> "file://"@.is_prefix_of(base@),
        rest matches Some(path) ==> base@ == "file://"@ + path@,
{
    let scheme: &str = "file://";
    let n: usize = scheme.unicode_len();
    if base.unicode_len() < n {
        return None;
    }
    let front: String = base.substring_char(0, n).to_owned();
    if !is_text(&front, scheme) {
        assert(front@ =~= base@.subrange(0, n as int));
        return None;
    }
    let rest: String = base.substring_char(n, base.unicode_len()).to_owned();
    assert(base@ =~= front@ + rest@);
    Some(rest)
}

/// Embedded text is accepted exactly where its way and its language are known and, in a module, an
/// interface or a package, where it is inline SystemVerilog.
pub proof fn law_embed_accepted(in_component: bool, arg: EmbedDeclaration)
    ensures
        embed_errors(in_component, arg).len() == 0 <==> is_embed_way(arg.way.text@)
            && is_embed_lang(arg.lang.text@) && (in_component ==> is_component_embed(
            arg.way.text@,
            arg.lang.text@,
        )),
{
}

/// A declaration stands in a component from when a component is entered until one is left, and
/// entering or leaving one reports nothing.
pub proof fn law_component_scope(state: CheckEmbedIncludeView, point: HandlerPoint)
    ensures
        (CheckEmbedIncludeView { point, ..state }).with_component().in_component <==> point
            is Before,
        (CheckEmbedIncludeView { point, ..state }).with_component().errors == state.errors,
{
}

/// Errors are only added behind those that were found, and none while a declaration is left.
pub proof fn law_errors_kept(state: CheckEmbedIncludeView, errors: Seq<AnalyzerError>)
    ensures
        state.errors.is_prefix_of(state.with_errors(errors).errors),
        state.point is After ==> state.with_errors(errors) == state,
        state.with_errors(errors).in_component == state.in_component,
{
}

/// What is found when a declaration of embedded text is entered: the way is reported exactly where it
/// is neither `inline` nor `cocotb`, the language exactly where it is neither `sv` nor `py`, and,
/// in a module, an interface or a package, the combination exactly where it is not `inline` with
/// `sv`. These are reported in this order, each once, behind what was found before; nothing else
/// is.
pub proof fn law_embed_reported(state: CheckEmbedIncludeView, arg: EmbedDeclaration)
    requires
        state.point is Before,
    ensures
        ({
            let after = state.with_errors(embed_errors(state.in_component, arg)).errors;
            let new = after.skip(state.errors.len() as int);
            let way = AnalyzerError::UnknownEmbedWay { way: arg.way.text, token: arg.way };
            let lang = AnalyzerError::UnknownEmbedLang { lang: arg.lang.text, token: arg.lang };
            let invalid = AnalyzerError::InvalidEmbed {
                way: arg.way.text,
                lang: arg.lang.text,
                token: arg.way,
            };
            &&& state.errors.is_prefix_of(after)
            &&& new.contains(way) <==> !(arg.way.text@ == "inline"@ || arg.way.text@ == "cocotb"@)
            &&& new.contains(lang) <==> !(arg.lang.text@ == "sv"@ || arg.lang.text@ == "py"@)
            &&& new.contains(invalid) <==> state.in_component && !(arg.way.text@ == "inline"@
                && arg.lang.text@ == "sv"@)
            &&& forall|i: int|
                0 <= i < new.len() ==> #[trigger] new[i] == way || new[i] == lang || new[i]
                    == invalid
            &&& forall|i: int, j: int|
                0 <= i < j < new.len() ==> (#[trigger] new[i] == way && #[trigger] new[j] == lang)
                    || (new[i] == way && new[j] == invalid) || (new[i] == lang && new[j] == invalid)
        }),
{
    let errors = embed_errors(state.in_component, arg);
    let after = state.with_errors(errors).errors;
    let new = after.skip(state.errors.len() as int);
    assert(new =~= errors);
    let a = unknown_way_errors(arg);
    let b = unknown_lang_errors(arg);
    let c = component_errors(state.in_component, arg);
    let way = AnalyzerError::UnknownEmbedWay { way: arg.way.text, token: arg.way };
    let lang = AnalyzerError::UnknownEmbedLang { lang: arg.lang.text, token: arg.lang };
    let invalid = AnalyzerError::InvalidEmbed {
        way: arg.way.text,
        lang: arg.lang.text,
        token: arg.way,
    };
    assert(a.len() == 1 ==> new[0] == way);
    assert(b.len() == 1 ==> new[a.len() as int] == lang);
    assert(c.len() == 1 ==> new[(a.len() + b.len()) as int] == invalid);
}

/// What is found when a declaration of included text is entered, before its file is read: the way,
/// exactly where it is neither `inline` nor `cocotb`.
pub proof fn law_include_reported(state: CheckEmbedIncludeView, arg: IncludeDeclaration)
    requires
        state.point is Before,
    ensures
        ({
            let after = state.with_errors(include_errors(arg)).errors;
            let unknown = AnalyzerError::UnknownIncludeWay { way: arg.way.text, token: arg.way };
            if arg.way.text@ == "inline"@ || arg.way.text@ == "cocotb"@ {
                after == state.errors
            } else {
                after == state.errors.push(unknown)
            }
        }),
{
    let after = state.with_errors(include_errors(arg)).errors;
    if is_include_way(arg.way.text@) {
        assert(after =~= state.errors);
    } else {
        assert(after =~= state.errors.push(
            AnalyzerError::UnknownIncludeWay { way: arg.way.text, token: arg.way },
        ));
    }
}

/// A text is quoted exactly where it is some text between two quotes, and that is the text without
/// them.
pub proof fn law_quoted(text: Seq<char>, inner: Seq<char>)
    ensures
        text == seq!['"'] + inner + seq!['"'] <==> is_quoted(text) && unquoted(text) == inner,
{
    if is_quoted(text) && unquoted(text) == inner {
        assert(text =~= seq!['"'] + inner + seq!['"']);
    }
    if text == seq!['"'] + inner + seq!['"'] {
        assert(unquoted(text) =~= inner);
    }
}

/// Entering a module, an interface or a package makes declarations stand in a component, leaving one
/// makes them stand in none; neither changes anything else.
pub proof fn law_component_entered(state: CheckEmbedIncludeView)
    ensures
        state.point == HandlerPoint::Before ==> state.with_component().in_component,
        state.point == HandlerPoint::After ==> !state.with_component().in_component,
        state.with_component().errors == state.errors,
        state.with_component().point == state.point,
{
}

} // verus!
