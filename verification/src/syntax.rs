//! The lexer: the tokens of a text as a stream.

use vstd::prelude::*;
use vstd::string::StringSliceAdditionalSpecFns;
use vstd::utf8::is_char_boundary;
use crate::lexical::{lemma_tokens_contiguous, lemma_tokens_from_step, tokens_from};
use crate::tokenizer::{Token, TokenView, Tokenizer};

verus! {

/// A stream of the tokens of a text. It has no state but the cursor of its
/// tokenizer.
#[derive(Debug)]
pub struct Lexer<'a> {
    inner: Tokenizer<'a>,
}

impl<'a> Lexer<'a> {
    /// The bytes of the text.
    pub closed spec fn source(&self) -> Seq<u8> {
        self.inner.source()
    }

    /// The offset of the next token.
    pub closed spec fn cursor(&self) -> int {
        self.inner.cursor()
    }

    /// The lexer is in order: its tokenizer is.
    pub closed spec fn wf(&self) -> bool {
        self.inner.wf()
    }

    /// The tokens that the stream has yet to give.
    pub open spec fn remaining(&self) -> Seq<TokenView> {
        tokens_from(self.source(), self.cursor())
    }

    /// What `wf` says of the cursor.
    pub proof fn lemma_cursor(&self)
        requires
            self.wf(),
        ensures
            0 <= self.cursor() <= self.source().len(),
            is_char_boundary(self.source(), self.cursor()),
    {
        self.inner.lemma_cursor();
    }

    /// A lexer at the start of `value`.
    pub fn new(value: &'a str) -> (lexer: Lexer<'a>)
        ensures
            lexer.wf(),
            lexer.source() == value.spec_bytes(),
            lexer.cursor() == 0,
    {
        Lexer { inner: Tokenizer::new(value) }
    }

    /// Gives the next token, or `None` once the text is used up.
    pub fn next(&mut self) -> (token: Option<Token<'a>>)
        requires
            old(self).wf(),
        ensures
            final(self).wf(),
            final(self).source() == old(self).source(),
            match token {
                Some(t) => {
                    &&& old(self).remaining().len() > 0
                    &&& t@ == old(self).remaining()[0]
                    &&& t@.start == old(self).cursor()
                    &&& final(self).cursor() == t@.end
                    &&& final(self).remaining() == old(self).remaining().skip(1)
                },
                None => {
                    &&& old(self).remaining().len() == 0
                    &&& final(self).cursor() == old(self).cursor()
                },
            },
    {
        proof {
            self.inner.lemma_cursor();
            lemma_tokens_contiguous(self.source(), self.cursor());
        }
        if !self.inner.end_of_file() {
            proof {
                lemma_tokens_from_step(self.source(), self.cursor());
            }
            let token = self.inner.next_token();
            Some(token)
        } else {
            None
        }
    }
}

} // verus!
