//! The two ways an expansion fails.
use vstd::prelude::*;

use crate::text::{decimal, push_char, push_decimal};

verus! {

/// What an error says, over plain values.
pub enum ErrorView {
    /// A directive in `context` (none for the top-level source), on its line `line`,
    /// names `target`, which is being expanded already; `stack` lists the names under
    /// expansion, outermost first.
    Cycle { context: Option<Seq<char>>, line: nat, target: Seq<char>, stack: Seq<Seq<char>> },
    /// A directive in `context`, on its line `line`, names `target`, which is not registered.
    NotFound { context: Option<Seq<char>>, line: nat, target: Seq<char> },
}

/// Why an expansion failed.
#[derive(Debug, PartialEq, Eq)]
pub enum Error {
    /// A directive names a file that is being expanded already.
    RecursiveInclude {
        /// The file that holds the directive; none for the top-level source.
        in_file: Option<String>,
        /// The 0-based line of the directive in that file.
        line_num: usize,
        /// The name the directive refers to.
        problem_include: String,
        /// The names under expansion when the directive was met, outermost first.
        include_stack: Vec<String>,
    },
    /// A directive names a file that is not registered.
    FileNotFound {
        /// The file that holds the directive; none for the top-level source.
        in_file: Option<String>,
        /// The 0-based line of the directive in that file.
        line_num: usize,
        /// The name the directive refers to.
        problem_include: String,
    },
}

impl View for Error {
    type V = ErrorView;

    open spec fn view(&self) -> ErrorView {
        match self {
            Error::RecursiveInclude { in_file, line_num, problem_include, include_stack } => {
                ErrorView::Cycle {
                    context: in_file.deep_view(),
                    line: *line_num as nat,
                    target: problem_include@,
                    stack: include_stack.deep_view(),
                }
            },
            Error::FileNotFound { in_file, line_num, problem_include } => ErrorView::NotFound {
                context: in_file.deep_view(),
                line: *line_num as nat,
                target: problem_include@,
            },
        }
    }
}

/// `s` between double quotes.
pub open spec fn quoted(s: Seq<char>) -> Seq<char> {
    seq!['"'] + s + seq!['"']
}

/// The `Debug` rendering of a string: the string between double quotes, with quotes,
/// backslashes and control characters escaped.
pub uninterp spec fn debug_text(s: Seq<char>) -> Seq<char>;

/// Relies on `<str as Debug>::fmt`, whose output depends on the characters alone.
#[verifier::external_body]
fn debug_string(s: &String) -> (r: String)
    ensures
        r@ == debug_text(s@),
{
    format!("{:?}", s)
}

/// An optional name as `Debug` renders it, given the rendering of the name itself.
pub open spec fn option_text(rendered: Option<Seq<char>>) -> Seq<char> {
    match rendered {
        Some(name) => "Some("@ + name + ")"@,
        None => "None"@,
    }
}

/// The rendered items, separated by commas.
pub open spec fn joined(items: Seq<Seq<char>>) -> Seq<char>
    decreases items.len(),
{
    if items.len() == 0 {
        Seq::empty()
    } else if items.len() == 1 {
        items[0]
    } else {
        joined(items.drop_last()) + ", "@ + items.last()
    }
}

/// The text of an error, given the `Debug` renderings of the names it holds: `file`
/// for the name of the file that holds the directive, `stack` for the names of the
/// include stack.
pub open spec fn message_text(e: ErrorView, file: Option<Seq<char>>, stack: Seq<Seq<char>>) -> Seq<
    char,
> {
    match e {
        ErrorView::Cycle { line, target, .. } => "Detected recursive include of file "@ + quoted(
            target,
        ) + " in file "@ + option_text(file) + ", line "@ + decimal(line) + ", include stack ["@
            + joined(stack) + "]"@,
        ErrorView::NotFound { line, target, .. } => "Could not find file "@ + quoted(target)
            + ", included from file "@ + option_text(file) + ", line "@ + decimal(line)
            + "\nhelp: Call Context::file with the file name and contents"@,
    }
}

/// The names an error holds, rendered: that of its file and those of its stack.
pub open spec fn rendered_names(e: ErrorView) -> (Option<Seq<char>>, Seq<Seq<char>>) {
    let (context, stack) = match e {
        ErrorView::Cycle { context, stack, .. } => (context, stack),
        ErrorView::NotFound { context, .. } => (context, Seq::empty()),
    };
    (
        match context {
            Some(name) => Some(debug_text(name)),
            None => None,
        },
        stack.map_values(|name: Seq<char>| debug_text(name)),
    )
}

/// The human-readable text of an error.
pub open spec fn message_of(e: ErrorView) -> Seq<char> {
    message_text(e, rendered_names(e).0, rendered_names(e).1)
}

fn push_quoted(s: &mut String, name: &String)
    ensures
        final(s)@ == old(s)@ + quoted(name@),
{
    push_char(s, '"');
    s.append(name.as_str());
    push_char(s, '"');
    assert(final(s)@ =~= old(s)@ + quoted(name@));
}

fn push_option(s: &mut String, rendered: &Option<String>)
    ensures
        final(s)@ == old(s)@ + option_text(rendered.deep_view()),
{
    match rendered {
        Some(name) => {
            s.append("Some(");
            s.append(name.as_str());
            s.append(")");
            assert(final(s)@ =~= old(s)@ + option_text(rendered.deep_view()));
        },
        None => {
            s.append("None");
        },
    }
}

fn push_joined(s: &mut String, items: &Vec<String>)
    ensures
        final(s)@ == old(s)@ + joined(items.deep_view()),
{
    let mut i: usize = 0;
    while i < items.len()
        invariant
            i <= items.len(),
            s@ == old(s)@ + joined(items.deep_view().take(i as int)),
        decreases items.len() - i,
    {
        if i > 0 {
            s.append(", ");
        }
        s.append(items[i].as_str());
        i = i + 1;
        let ghost taken = items.deep_view().take(i as int);
        assert(taken.drop_last() =~= items.deep_view().take(i - 1));
        assert(taken.last() == items[i - 1]@);
        assert(s@ =~= old(s)@ + joined(taken));
    }
    assert(items.deep_view().take(items.len() as int) =~= items.deep_view());
}

impl Error {
    /// A short description of the kind of error.
    pub fn description(&self) -> (r: &'static str)
        ensures
            r@ == match self@ {
                ErrorView::Cycle { .. } => "Detected recursive #include"@,
                ErrorView::NotFound { .. } => "Could not find #include file"@,
            },
    {
        match self {
            Error::RecursiveInclude { .. } => "Detected recursive #include",
            Error::FileNotFound { .. } => "Could not find #include file",
        }
    }

    /// The text of the error, given the `Debug` renderings of the names it holds:
    /// `file` for the name of the file holding the directive, `stack` for the names of
    /// the include stack (not read for a missing file).
    pub fn compose_message(&self, file: &Option<String>, stack: &Vec<String>) -> (r: String)
        ensures
            r@ == message_text(self@, file.deep_view(), stack.deep_view()),
    {
        let mut s = String::new();
        match self {
            Error::RecursiveInclude { line_num, problem_include, .. } => {
                s.append("Detected recursive include of file ");
                push_quoted(&mut s, problem_include);
                s.append(" in file ");
                push_option(&mut s, file);
                s.append(", line ");
                push_decimal(&mut s, *line_num);
                s.append(", include stack [");
                push_joined(&mut s, stack);
                s.append("]");
            },
            Error::FileNotFound { line_num, problem_include, .. } => {
                s.append("Could not find file ");
                push_quoted(&mut s, problem_include);
                s.append(", included from file ");
                push_option(&mut s, file);
                s.append(", line ");
                push_decimal(&mut s, *line_num);
                s.append("\nhelp: Call Context::file with the file name and contents");
            },
        }
        assert(s@ =~= message_text(self@, file.deep_view(), stack.deep_view()));
        s
    }

    /// The full human-readable text of the error.
    pub fn message(&self) -> (r: String)
        ensures
            r@ == message_of(self@),
    {
        let (in_file, names) = match self {
            Error::RecursiveInclude { in_file, include_stack, .. } => (in_file, Some(include_stack)),
            Error::FileNotFound { in_file, .. } => (in_file, None),
        };
        let file = match in_file {
            Some(name) => Some(debug_string(name)),
            None => None,
        };
        let mut stack: Vec<String> = Vec::new();
        if let Some(names) = names {
            let mut i: usize = 0;
            while i < names.len()
                invariant
                    i <= names.len(),
                    stack.deep_view() == names.deep_view().take(i as int).map_values(
                        |name: Seq<char>| debug_text(name),
                    ),
                decreases names.len() - i,
            {
                let ghost before = stack.deep_view();
                stack.push(debug_string(&names[i]));
                i = i + 1;
                assert(stack.deep_view() =~= names.deep_view().take(i as int).map_values(
                    |name: Seq<char>| debug_text(name),
                )) by {
                    assert(stack.deep_view() =~= before.push(debug_text(names[i - 1]@)));
                }
            }
            assert(names.deep_view().take(names.len() as int) =~= names.deep_view());
        }
        assert(file.deep_view() == rendered_names(self@).0);
        assert(stack.deep_view() =~= rendered_names(self@).1);
        self.compose_message(&file, &stack)
    }
}

} // verus!
