//! How hover contents are shown: as lines of text, with the filetype that
//! the editor highlights them as.
use vstd::prelude::*;
use crate::edits::lines_view;
use crate::protocol::{Hover, HoverContents, MarkedString, MarkupContent, MarkupKind};

verus! {

/// The lines of a text as `str::lines` cuts them.
pub uninterp spec fn lines_of(text: Seq<char>) -> Seq<Seq<char>>;

/// Relies on `str::lines`, whose result depends on the text alone.
#[verifier::external_body]
fn text_lines(text: &str) -> (r: Vec<String>)
    ensures
        lines_view(r@) == lines_of(text@),
{
    text.lines().map(|l| l.to_owned()).collect()
}

/// Something that can be shown in a preview window.
pub trait ToDisplay {
    spec fn display(&self) -> Seq<Seq<char>>;

    spec fn filetype(&self) -> Option<Seq<char>>;

    /// The lines to show.
    fn to_display(&self) -> (r: Vec<String>)
        ensures
            lines_view(r@) == self.display(),
    ;

    /// The filetype to highlight the lines as.
    fn vim_filetype(&self) -> (r: Option<String>)
        ensures
            match r {
                Some(s) => self.filetype() == Some(s@),
                None => self.filetype() is None,
            },
    ;
}

pub open spec fn marked_text(m: MarkedString) -> Seq<char> {
    match m {
        MarkedString::Plain(s) => s@,
        MarkedString::LanguageString { value, .. } => value@,
    }
}

/// How one item of a hover array is shown: code in a fenced block.
pub open spec fn array_item_display(m: MarkedString) -> Seq<Seq<char>> {
    match m {
        MarkedString::Plain(s) => lines_of(s@),
        MarkedString::LanguageString { language, value } => seq!["```"@ + language@] + lines_of(value@)
            + seq!["```"@],
    }
}

pub open spec fn array_display(items: Seq<MarkedString>) -> Seq<Seq<char>>
    decreases items.len(),
{
    if items.len() == 0 {
        Seq::empty()
    } else {
        array_display(items.drop_last()) + array_item_display(items.last())
    }
}

fn append_lines(out: &mut Vec<String>, more: Vec<String>)
    ensures
        lines_view(final(out)@) == lines_view(old(out)@) + lines_view(more@),
{
    let mut i: usize = 0;
    let ghost start = lines_view(out@);
    while i < more.len()
        invariant
            i <= more.len(),
            lines_view(out@) == start + lines_view(more@).subrange(0, i as int),
        decreases more.len() - i,
    {
        let ghost before = lines_view(out@);
        out.push(more[i].clone());
        assert(lines_view(out@) =~= before.push(more@[i as int]@));
        assert(lines_view(more@).subrange(0, i as int + 1) =~= lines_view(more@).subrange(0, i as int).push(
            more@[i as int]@,
        ));
        i = i + 1;
    }
    assert(lines_view(more@).subrange(0, more@.len() as int) =~= lines_view(more@));
}

impl ToDisplay for MarkedString {
    open spec fn display(&self) -> Seq<Seq<char>> {
        lines_of(marked_text(*self))
    }

    open spec fn filetype(&self) -> Option<Seq<char>> {
        match self {
            MarkedString::Plain(_) => Some("markdown"@),
            MarkedString::LanguageString { language, .. } => Some(language@),
        }
    }

    fn to_display(&self) -> (r: Vec<String>) {
        match self {
            MarkedString::Plain(s) => text_lines(s.as_str()),
            MarkedString::LanguageString { value, .. } => text_lines(value.as_str()),
        }
    }

    fn vim_filetype(&self) -> (r: Option<String>) {
        match self {
            MarkedString::Plain(_) => Some("markdown".to_owned()),
            MarkedString::LanguageString { language, .. } => Some(language.clone()),
        }
    }
}

impl ToDisplay for MarkupContent {
    open spec fn display(&self) -> Seq<Seq<char>> {
        lines_of(self.value@)
    }

    open spec fn filetype(&self) -> Option<Seq<char>> {
        match self.kind {
            MarkupKind::Markdown => Some("markdown"@),
            MarkupKind::PlainText => Some("text"@),
        }
    }

    fn to_display(&self) -> (r: Vec<String>) {
        text_lines(self.value.as_str())
    }

    fn vim_filetype(&self) -> (r: Option<String>) {
        match self.kind {
            MarkupKind::Markdown => Some("markdown".to_owned()),
            MarkupKind::PlainText => Some("text".to_owned()),
        }
    }
}

impl ToDisplay for Hover {
    open spec fn display(&self) -> Seq<Seq<char>> {
        match self.contents {
            HoverContents::Scalar(ms) => ms.display(),
            HoverContents::Array(arr) => array_display(arr@),
            HoverContents::Markup(mc) => mc.display(),
        }
    }

    open spec fn filetype(&self) -> Option<Seq<char>> {
        match self.contents {
            HoverContents::Scalar(ms) => ms.filetype(),
            HoverContents::Array(_) => Some("markdown"@),
            HoverContents::Markup(mc) => mc.filetype(),
        }
    }

    fn to_display(&self) -> (r: Vec<String>) {
        match &self.contents {
            HoverContents::Scalar(ms) => ms.to_display(),
            HoverContents::Array(arr) => {
                let mut out: Vec<String> = Vec::new();
                let mut i: usize = 0;
                while i < arr.len()
                    invariant
                        i <= arr.len(),
                        lines_view(out@) == array_display(arr@.subrange(0, i as int)),
                    decreases arr.len() - i,
                {
                    let ghost sub = arr@.subrange(0, i as int + 1);
                    assert(sub.drop_last() =~= arr@.subrange(0, i as int));
                    match &arr[i] {
                        MarkedString::LanguageString { language, value } => {
                            let mut fence = "```".to_owned();
                            fence.append(language.as_str());
                            let ghost before = lines_view(out@);
                            out.push(fence);
                            assert(lines_view(out@) =~= before + seq!["```"@ + language@]);
                            append_lines(&mut out, text_lines(value.as_str()));
                            let ghost mid = lines_view(out@);
                            out.push("```".to_owned());
                            assert(lines_view(out@) =~= mid + seq!["```"@]);
                            assert(lines_view(out@) =~= before + array_item_display(arr@[i as int]));
                        },
                        MarkedString::Plain(s) => {
                            append_lines(&mut out, text_lines(s.as_str()));
                        },
                    }
                    i = i + 1;
                }
                assert(arr@.subrange(0, arr@.len() as int) =~= arr@);
                out
            },
            HoverContents::Markup(mc) => mc.to_display(),
        }
    }

    fn vim_filetype(&self) -> (r: Option<String>) {
        match &self.contents {
            HoverContents::Scalar(ms) => ms.vim_filetype(),
            HoverContents::Array(_) => Some("markdown".to_owned()),
            HoverContents::Markup(mc) => mc.vim_filetype(),
        }
    }
}

} // verus!
