//! Errors, as the texts that are shown for them.

use vstd::prelude::*;

use crate::text;

verus! {

/// Why an operation failed: what was being done, outermost first, and last what
/// went wrong.
#[derive(Debug)]
pub struct Error {
    messages: Vec<String>,
}

impl View for Error {
    type V = Seq<Seq<char>>;

    closed spec fn view(&self) -> Seq<Seq<char>> {
        text::views(self.messages@)
    }
}

impl Error {
    /// The error that `message` describes.
    pub fn new(message: String) -> (r: Error)
        ensures
            r@ == seq![message@],
    {
        let mut messages: Vec<String> = Vec::new();
        messages.push(message);
        proof {
            assert(text::views(messages@) =~= seq![message@]);
        }
        Error { messages }
    }

    /// The error with what was being done before its other messages.
    pub fn context(self, message: String) -> (r: Error)
        ensures
            r@ == seq![message@] + self@,
    {
        let mut messages = self.messages;
        messages.insert(0, message);
        proof {
            assert(text::views(messages@) =~= seq![message@] + text::views(self.messages@));
        }
        Error { messages }
    }

    /// The messages, outermost first.
    pub fn messages(&self) -> (r: &Vec<String>)
        ensures
            text::views(r@) == self@,
    {
        &self.messages
    }
}

/// Something to tell the user while an operation goes on.
#[derive(Debug)]
pub enum Notice {
    Warning(String),
    Note(String),
}

/// The model of [`Notice`].
pub ghost enum NoticeModel {
    Warning(Seq<char>),
    Note(Seq<char>),
}

impl View for Notice {
    type V = NoticeModel;

    open spec fn view(&self) -> NoticeModel {
        match self {
            Notice::Warning(s) => NoticeModel::Warning(s@),
            Notice::Note(s) => NoticeModel::Note(s@),
        }
    }
}

/// The models of a sequence of notices.
pub open spec fn notice_models(v: Seq<Notice>) -> Seq<NoticeModel> {
    v.map_values(|n: Notice| n@)
}

} // verus!
