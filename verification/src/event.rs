//! The lexical events of a document, and a reader that hands them out in turn.

use vstd::prelude::*;
use crate::error::Position;

verus! {

/// One attribute of an element: its local name and its value.
#[derive(Clone, PartialEq, Eq, Debug)]
pub struct Attribute {
    pub name: String,
    pub value: String,
}

/// What a tokenizer reports of a document, piece by piece.
#[derive(Clone, PartialEq, Eq, Debug)]
pub enum Event {
    /// The declaration that opens a document, written out or implied.
    StartDocument,
    /// A processing instruction.
    ProcessingInstruction,
    /// The opening tag of an element, with the element's local name.
    StartElement { name: String, attributes: Vec<Attribute> },
    /// The closing tag of an element.
    EndElement,
    /// The end of the document.
    EndDocument,
    /// Text, white space, character data or a comment.
    Other,
    /// The tokenizer could not go on; nothing follows.
    Failure { message: String },
}

/// An event together with the place that the tokenizer had reached when it reported it.
#[derive(Clone, PartialEq, Eq, Debug)]
pub struct Token {
    pub event: Event,
    pub position: Position,
}

/// The mathematical content of an [`Attribute`].
pub struct AttributeView {
    pub name: Seq<char>,
    pub value: Seq<char>,
}

/// The mathematical content of an [`Event`].
pub enum EventView {
    StartDocument,
    ProcessingInstruction,
    StartElement { name: Seq<char>, attributes: Seq<AttributeView> },
    EndElement,
    EndDocument,
    Other,
    Failure { message: Seq<char> },
}

/// The mathematical content of a [`Token`].
pub struct TokenView {
    pub event: EventView,
    pub position: Position,
}

impl View for Attribute {
    type V = AttributeView;

    open spec fn view(&self) -> AttributeView {
        AttributeView { name: self.name@, value: self.value@ }
    }
}

/// The contents of a list of attributes, in order.
pub open spec fn attribute_views(attributes: Seq<Attribute>) -> Seq<AttributeView> {
    attributes.map_values(|a: Attribute| a@)
}

impl View for Event {
    type V = EventView;

    open spec fn view(&self) -> EventView {
        match *self {
            Event::StartDocument => EventView::StartDocument,
            Event::ProcessingInstruction => EventView::ProcessingInstruction,
            Event::StartElement { name, attributes } => EventView::StartElement {
                name: name@,
                attributes: attribute_views(attributes@),
            },
            Event::EndElement => EventView::EndElement,
            Event::EndDocument => EventView::EndDocument,
            Event::Other => EventView::Other,
            Event::Failure { message } => EventView::Failure { message: message@ },
        }
    }
}

impl View for Token {
    type V = TokenView;

    open spec fn view(&self) -> TokenView {
        TokenView { event: self.event@, position: self.position }
    }
}

/// The contents of a list of tokens, in order.
pub open spec fn token_views(tokens: Seq<Token>) -> Seq<TokenView> {
    tokens.map_values(|t: Token| t@)
}

impl Attribute {
    pub fn new(name: String, value: String) -> (attribute: Attribute)
        ensures
            attribute@ == (AttributeView { name: name@, value: value@ }),
    {
        Attribute { name, value }
    }
}

impl Token {
    pub fn new(event: Event, position: Position) -> (token: Token)
        ensures
            token@ == (TokenView { event: event@, position }),
    {
        Token { event, position }
    }
}

/// The state of a reader: the tokens it has yet to hand out, and the place of the one it handed
/// out last.
pub struct EventsView {
    pub pending: Seq<TokenView>,
    pub at: Position,
}

impl EventsView {
    /// The event that comes next. Where the tokens have run out, the document has ended.
    pub open spec fn head(self) -> EventView {
        if self.pending.len() > 0 {
            self.pending[0].event
        } else {
            EventView::EndDocument
        }
    }

    /// The state after the next token has been handed out.
    pub open spec fn advance(self) -> EventsView {
        if self.pending.len() > 0 {
            EventsView { pending: self.pending.skip(1), at: self.pending[0].position }
        } else {
            self
        }
    }
}

/// A reader over a list of tokens.
pub struct Events<'a> {
    tokens: &'a [Token],
    cursor: usize,
    at: Position,
}

impl<'a> View for Events<'a> {
    type V = EventsView;

    closed spec fn view(&self) -> EventsView {
        EventsView { pending: token_views(self.tokens@).skip(self.cursor as int), at: self.at }
    }
}

impl<'a> Events<'a> {
    #[verifier::type_invariant]
    spec fn in_range(self) -> bool {
        self.cursor <= self.tokens@.len()
    }

    /// A reader that has all of `tokens` before it.
    pub fn new(tokens: &'a [Token]) -> (events: Events<'a>)
        ensures
            events@ == (EventsView { pending: token_views(tokens@), at: Position::origin() }),
    {
        assert(token_views(tokens@).skip(0) =~= token_views(tokens@));
        Events { tokens, cursor: 0, at: Position { row: 0, column: 0 } }
    }

    /// Hands out the next token, or `None` where none is left.
    pub fn next(&mut self) -> (token: Option<&'a Token>)
        ensures
            final(self)@ == old(self)@.advance(),
            match token {
                Some(t) => old(self)@.pending.len() > 0 && t@ == old(self)@.pending[0],
                None => old(self)@.pending.len() == 0,
            },
    {
        proof {
            use_type_invariant(&*self);
        }
        let tokens: &'a [Token] = self.tokens;
        if self.cursor < tokens.len() {
            let token = &tokens[self.cursor];
            assert(token_views(tokens@).skip(self.cursor as int).skip(1) =~= token_views(
                tokens@,
            ).skip(self.cursor + 1));
            self.cursor = self.cursor + 1;
            self.at = token.position;
            Some(token)
        } else {
            None
        }
    }

    /// The next token, which stays with the reader, or `None` where none is left.
    pub fn peek(&self) -> (token: Option<&'a Token>)
        ensures
            match token {
                Some(t) => self@.pending.len() > 0 && t@ == self@.pending[0],
                None => self@.pending.len() == 0,
            },
    {
        proof {
            use_type_invariant(self);
        }
        let tokens: &'a [Token] = self.tokens;
        if self.cursor < tokens.len() {
            Some(&tokens[self.cursor])
        } else {
            None
        }
    }

    /// How many tokens are left to hand out.
    pub fn remaining(&self) -> (count: usize)
        ensures
            count == self@.pending.len(),
    {
        proof {
            use_type_invariant(self);
        }
        self.tokens.len() - self.cursor
    }

    /// The place of the token handed out last.
    pub fn position(&self) -> (position: Position)
        ensures
            position == self@.at,
    {
        self.at
    }
}

} // verus!
