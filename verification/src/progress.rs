//! Keeping track of the work that a language server has announced and not
//! yet finished, to tell when it is done indexing.

use vstd::prelude::*;

verus! {

/// The token by which the server names one piece of work.
#[derive(Debug)]
pub enum ProgressToken {
    Number(i32),
    String(String),
}

/// A token as a mathematical value.
pub enum TokenView {
    Number(i32),
    String(Seq<char>),
}

impl View for ProgressToken {
    type V = TokenView;

    open spec fn view(&self) -> TokenView {
        match self {
            ProgressToken::Number(n) => TokenView::Number(*n),
            ProgressToken::String(s) => TokenView::String(s@),
        }
    }
}

impl ProgressToken {
    /// Whether two tokens name the same piece of work.
    pub fn same(&self, other: &ProgressToken) -> (equal: bool)
        ensures
            equal == (self@ == other@),
    {
        match (self, other) {
            (ProgressToken::Number(a), ProgressToken::Number(b)) => *a == *b,
            (ProgressToken::String(a), ProgressToken::String(b)) => *a == *b,
            _ => false,
        }
    }
}

/// What a progress notification says of its piece of work.
#[derive(Debug, Clone, Copy, PartialEq, Eq, Structural)]
pub enum WorkDoneProgress {
    Begin,
    Report,
    End,
}

/// The name under which the server reports its indexing.
pub open spec fn indexing_token() -> TokenView {
    TokenView::String("rustAnalyzer/Indexing"@)
}

/// The set after a notification of kind `progress` for `token`: the start
/// of work adds its token, the end takes it away, a report changes nothing.
pub open spec fn after(
    waiting_for: Set<TokenView>,
    token: TokenView,
    progress: WorkDoneProgress,
) -> Set<TokenView> {
    match progress {
        WorkDoneProgress::Begin => waiting_for.insert(token),
        WorkDoneProgress::Report => waiting_for,
        WorkDoneProgress::End => waiting_for.remove(token),
    }
}

/// The pieces of work that are still awaited.
#[derive(Debug)]
pub struct IndexingProgress {
    /// The awaited tokens.
    waiting_for: Vec<ProgressToken>,
}

impl View for IndexingProgress {
    type V = Set<TokenView>;

    closed spec fn view(&self) -> Set<TokenView> {
        self.tokens().to_set()
    }
}

impl IndexingProgress {
    spec fn tokens(&self) -> Seq<TokenView> {
        self.waiting_for@.map_values(|t: ProgressToken| t@)
    }

    /// Starts out waiting for the indexing itself.
    pub fn new() -> (progress: IndexingProgress)
        ensures
            progress@ == Set::<TokenView>::empty().insert(indexing_token()),
    {
        let mut waiting_for: Vec<ProgressToken> = Vec::new();
        waiting_for.push(ProgressToken::String("rustAnalyzer/Indexing".to_owned()));
        let progress = IndexingProgress { waiting_for };
        proof {
            let none = Seq::<TokenView>::empty();
            assert(progress.tokens() =~= none.push(indexing_token()));
            none.lemma_push_to_set_commute(indexing_token());
            assert(none.to_set() =~= Set::<TokenView>::empty());
        }
        progress
    }

    /// Whether nothing is awaited any more.
    pub fn is_done(&self) -> (done: bool)
        ensures
            done == (self@ == Set::<TokenView>::empty()),
    {
        proof {
            if self.tokens().len() > 0 {
                assert(self.tokens().to_set().contains(self.tokens()[0]));
            } else {
                assert(self.tokens().to_set() =~= Set::<TokenView>::empty());
            }
        }
        self.waiting_for.len() == 0
    }

    /// Takes note of one progress notification and says whether nothing
    /// is awaited after it.
    pub fn observe(&mut self, token: ProgressToken, progress: WorkDoneProgress) -> (done: bool)
        ensures
            final(self)@ == after(old(self)@, token@, progress),
            done == (final(self)@ == Set::<TokenView>::empty()),
    {
        match progress {
            WorkDoneProgress::Begin => {
                match self.position(&token) {
                    Some(_) => {
                        assert(self@ =~= self@.insert(token@));
                    },
                    None => {
                        let ghost before = self.tokens();
                        self.waiting_for.push(token);
                        proof {
                            assert(self.tokens() =~= before.push(token@));
                            before.lemma_push_to_set_commute(token@);
                        }
                    },
                }
            },
            WorkDoneProgress::Report => {},
            WorkDoneProgress::End => {
                let ghost wanted = self@.remove(token@);
                loop
                    invariant
                        self@.remove(token@) == wanted,
                    ensures
                        self@ == wanted,
                    decreases self.waiting_for.len(),
                {
                    match self.position(&token) {
                        Some(at) => {
                            let ghost before = self.tokens();
                            self.waiting_for.remove(at);
                            proof {
                                assert(self.tokens() =~= before.remove(at as int));
                                lemma_remove_one(before, at as int);
                            }
                        },
                        None => {
                            assert(self@ =~= self@.remove(token@));
                            break ;
                        },
                    }
                }
            },
        }
        self.is_done()
    }

    /// Where `token` stands among the awaited ones, if it is awaited.
    fn position(&self, token: &ProgressToken) -> (found: Option<usize>)
        ensures
            match found {
                Some(at) => at < self.tokens().len() && self.tokens()[at as int] == token@,
                None => !self@.contains(token@),
            },
    {
        let mut at: usize = 0;
        while at < self.waiting_for.len()
            invariant
                at <= self.waiting_for.len(),
                forall|i: int| 0 <= i < at ==> self.tokens()[i] != token@,
            decreases self.waiting_for.len() - at,
        {
            if self.waiting_for[at].same(token) {
                return Some(at);
            }
            at += 1;
        }
        None
    }
}

/// Taking one occurrence of a value out of a sequence leaves the set of
/// the other values as it was.
proof fn lemma_remove_one(s: Seq<TokenView>, at: int)
    requires
        0 <= at < s.len(),
    ensures
        s.remove(at).to_set().remove(s[at]) == s.to_set().remove(s[at]),
{
    let r = s.remove(at);
    assert forall|t: TokenView|
        r.to_set().remove(s[at]).contains(t) <==> s.to_set().remove(s[at]).contains(t) by {
        if t != s[at] {
            if r.contains(t) {
                let i = choose|i: int| 0 <= i < r.len() && r[i] == t;
                if i < at {
                    assert(s[i] == t);
                } else {
                    assert(s[i + 1] == t);
                }
            }
            if s.contains(t) {
                let i = choose|i: int| 0 <= i < s.len() && s[i] == t;
                if i < at {
                    assert(r[i] == t);
                } else {
                    assert(r[i - 1] == t);
                }
            }
        }
    }
    assert(r.to_set().remove(s[at]) =~= s.to_set().remove(s[at]));
}

} // verus!
