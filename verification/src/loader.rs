//! Corpus data as the model sees it: a vocabulary mapper that assigns dense
//! integer ids to tokens, sentences of `(word_id, tag_id)` pairs, and the
//! parser that turns tab-separated corpus text into them.

use vstd::prelude::*;
use vstd::string::StrSliceExecFns;

verus! {

/// The index of the first occurrence of `sep` in `s`, or `-1` when
/// there is none.
pub open spec fn first_sep(s: Seq<char>, sep: char) -> int
    decreases s.len(),
{
    if s.len() == 0 {
        -1
    } else if s[0] == sep {
        0
    } else if first_sep(s.drop_first(), sep) < 0 {
        -1
    } else {
        first_sep(s.drop_first(), sep) + 1
    }
}

/// `first_sep` finds the first occurrence: a separator there, none
/// before it, and none at all when it reports `-1`.
pub proof fn lemma_first_sep(s: Seq<char>, sep: char)
    ensures
        -1 <= first_sep(s, sep) < s.len(),
        first_sep(s, sep) >= 0 ==> s[first_sep(s, sep)] == sep,
        forall|j: int| 0 <= j < first_sep(s, sep) ==> s[j] != sep,
        first_sep(s, sep) < 0 ==> forall|j: int| 0 <= j < s.len() ==> s[j] != sep,
    decreases s.len(),
{
    if s.len() > 0 && s[0] != sep {
        lemma_first_sep(s.drop_first(), sep);
        assert forall|j: int| 0 <= j < first_sep(s, sep) implies s[j] != sep by {
            if j > 0 {
                assert(s.drop_first()[j - 1] != sep);
            }
        }
        if first_sep(s, sep) < 0 {
            assert forall|j: int| 0 <= j < s.len() implies s[j] != sep by {
                if j > 0 {
                    assert(s.drop_first()[j - 1] != sep);
                }
            }
        }
    }
}

/// An occurrence at `i` with none before it is the first occurrence.
pub proof fn lemma_first_sep_is(s: Seq<char>, sep: char, i: int)
    requires
        0 <= i < s.len(),
        s[i] == sep,
        forall|j: int| 0 <= j < i ==> s[j] != sep,
    ensures
        first_sep(s, sep) == i,
    decreases s.len(),
{
    if i > 0 {
        assert forall|j: int| 0 <= j < i - 1 implies s.drop_first()[j] != sep by {
            assert(s[j + 1] != sep);
        }
        lemma_first_sep_is(s.drop_first(), sep, i - 1);
    }
}

/// The pieces of `s` between occurrences of `sep`: empty input gives
/// one empty piece, and a trailing separator gives a trailing empty
/// piece, exactly as iterating a string split does.
pub open spec fn split_on(s: Seq<char>, sep: char) -> Seq<Seq<char>>
    decreases s.len(),
{
    let f = first_sep(s, sep);
    if 0 <= f < s.len() {
        seq![s.take(f)] + split_on(s.skip(f + 1), sep)
    } else {
        seq![s]
    }
}

/// Maps tokens (words or tags) to dense integer ids and back.
///
/// A token's id is its index in `keys`; the first token ever seen gets id 0,
/// the next distinct one id 1, and so on.
pub struct Mapper {
    pub keys: Vec<String>,
}

impl Mapper {
    /// The keys as a sequence of character sequences.
    pub open spec fn view_keys(&self) -> Seq<Seq<char>> {
        self.keys.deep_view()
    }

    /// No token occurs twice among the keys.
    pub open spec fn wf(&self) -> bool {
        forall|i: int, j: int|
            0 <= i < j < self.view_keys().len() ==> self.view_keys()[i] != self.view_keys()[j]
    }

    /// A mapper with no tokens yet.
    pub fn empty() -> (m: Mapper)
        ensures
            m.view_keys() == Seq::<Seq<char>>::empty(),
            m.wf(),
    {
        Mapper { keys: Vec::new() }
    }

    /// The number of distinct tokens seen so far; `None` when none has been.
    pub fn count(&self) -> (r: Option<usize>)
        ensures
            r == (if self.view_keys().len() == 0 {
                Option::<usize>::None
            } else {
                Option::<usize>::Some(self.view_keys().len() as usize)
            }),
    {
        if self.keys.len() == 0 {
            None
        } else {
            Some(self.keys.len())
        }
    }

    /// A mapper with the same keys.
    pub fn clone_keys(&self) -> (m: Mapper)
        ensures
            m.view_keys() == self.view_keys(),
    {
        let n = self.keys.len();
        let mut keys: Vec<String> = Vec::new();
        let mut i: usize = 0;
        while i < n
            invariant
                i <= n,
                n == self.keys@.len(),
                keys@.len() == i,
                forall|j: int| 0 <= j < i ==> #[trigger] keys@[j]@ == self.keys@[j]@,
            decreases n - i,
        {
            keys.push(self.keys[i].clone());
            i = i + 1;
        }
        let m = Mapper { keys };
        proof {
            assert forall|j: int| 0 <= j < n implies #[trigger] m.view_keys()[j]
                == self.view_keys()[j] by {
                lemma_keys_index(m.keys, j);
                lemma_keys_index(self.keys, j);
            }
            assert(m.view_keys() =~= self.view_keys());
        }
        m
    }

    /// The id of `tok`: the id it already has if it was seen before, and
    /// a fresh one (the next index) otherwise.
    pub fn update(&mut self, tok: &str) -> (id: usize)
        requires
            old(self).wf(),
        ensures
            final(self).wf(),
            id < final(self).view_keys().len(),
            final(self).view_keys()[id as int] == tok@,
            if old(self).view_keys().contains(tok@) {
                final(self).view_keys() == old(self).view_keys()
            } else {
                final(self).view_keys() == old(self).view_keys().push(tok@)
            },
    {
        let t: String = tok.to_owned();
        let n = self.keys.len();
        let mut i: usize = 0;
        while i < n
            invariant
                i <= n,
                n == self.view_keys().len(),
                self == old(self),
                self.wf(),
                forall|j: int| 0 <= j < i ==> #[trigger] self.view_keys()[j] != tok@,
                t@ == tok@,
            decreases n - i,
        {
            proof {
                lemma_keys_index(self.keys, i as int);
            }
            if self.keys[i] == t {
                return i;
            }
            i = i + 1;
        }
        proof {
            assert(!old(self).view_keys().contains(tok@));
        }
        self.keys.push(t);
        proof {
            assert forall|j: int| 0 <= j < n + 1 implies #[trigger] self.view_keys()[j] == old(
                self,
            ).view_keys().push(tok@)[j] by {
                lemma_keys_index(self.keys, j);
                if j < n {
                    lemma_keys_index(old(self).keys, j);
                }
            }
            assert(self.view_keys() =~= old(self).view_keys().push(tok@));
        }
        n
    }
}

/// A key of a mapper, seen through `deep_view`, is the view of the
/// stored string itself.
proof fn lemma_keys_index(keys: Vec<String>, i: int)
    requires
        0 <= i < keys@.len(),
    ensures
        keys.deep_view()[i] == keys@[i]@,
{
}

/// Split `s` at every occurrence of `sep`, exactly as `split_on`
/// states it.
#[verifier::loop_isolation(false)]
fn split_str(s: &str, sep: char) -> (r: Vec<String>)
    ensures
        r.deep_view() == split_on(s@, sep),
        r@.len() >= 1,
    decreases s@.len(),
{
    let n = s.unicode_len();
    let mut i: usize = 0;
    while i < n
        invariant
            i <= n,
            forall|j: int| 0 <= j < i ==> s@[j] != sep,
        decreases n - i,
    {
        if s.get_char(i) == sep {
            proof {
                lemma_first_sep_is(s@, sep, i as int);
            }
            let head: String = s.substring_char(0, i).to_owned();
            let rest: &str = s.substring_char(i + 1, n);
            let mut r = split_str(rest, sep);
            let ghost r0 = r@;
            let ghost rdv0 = r.deep_view();
            r.insert(0, head);
            proof {
                let whole = split_on(s@, sep);
                assert(s@.skip(i as int + 1) =~= rest@);
                assert(whole == seq![s@.take(i as int)] + split_on(rest@, sep));
                assert forall|j: int| 0 <= j < r@.len() implies #[trigger] r.deep_view()[j]
                    == whole[j] by {
                    lemma_keys_index(r, j);
                    if j > 0 {
                        assert(r@[j] == r0[j - 1]);
                        assert(rdv0[j - 1] == r0[j - 1]@);
                    } else {
                        assert(head@ =~= s@.take(i as int));
                    }
                }
                assert(r.deep_view() =~= whole);
            }
            return r;
        }
        i = i + 1;
    }
    proof {
        lemma_first_sep(s@, sep);
        if first_sep(s@, sep) >= 0 {
            assert(s@[first_sep(s@, sep)] == sep);
        }
    }
    let whole: String = s.to_owned();
    let mut r: Vec<String> = Vec::new();
    r.push(whole);
    proof {
        assert(r.deep_view() =~= split_on(s@, sep));
    }
    r
}

/// The keys of a mapper after it has seen `tok`.
pub open spec fn mapper_insert(keys: Seq<Seq<char>>, tok: Seq<char>) -> Seq<Seq<char>> {
    if keys.contains(tok) {
        keys
    } else {
        keys.push(tok)
    }
}

/// The id a mapper gives `tok`: its index among the keys if present,
/// the next index otherwise.
pub open spec fn key_id(keys: Seq<Seq<char>>, tok: Seq<char>) -> int {
    if keys.contains(tok) {
        choose|i: int| 0 <= i < keys.len() && keys[i] == tok
    } else {
        keys.len() as int
    }
}

/// With distinct keys, any index holding `tok` is the id of `tok`.
pub proof fn lemma_key_id_unique(keys: Seq<Seq<char>>, tok: Seq<char>, i: int)
    requires
        forall|x: int, y: int| 0 <= x < y < keys.len() ==> keys[x] != keys[y],
        0 <= i < keys.len(),
        keys[i] == tok,
    ensures
        key_id(keys, tok) == i,
{
    assert(keys.contains(tok));
    let c = choose|x: int| 0 <= x < keys.len() && keys[x] == tok;
    if c < i {
        assert(keys[c] != keys[i]);
    } else if c > i {
        assert(keys[i] != keys[c]);
    }
}

/// Parse corpus lines, threading the mapper keys, the sentence being
/// built and the finished sentences: a blank line ends the sentence in
/// progress, any other line contributes one `(word_id, tag_id)` pair,
/// the tag id being zero when the line has no tab-separated tag field.
/// Material not ended by a blank line (or the empty piece after a final
/// newline) is dropped: the line format ends every sentence explicitly.
pub open spec fn parse_lines(
    lines: Seq<Seq<char>>,
    mw: Seq<Seq<char>>,
    mt: Seq<Seq<char>>,
    cur: Seq<(usize, usize)>,
    data: Seq<Seq<(usize, usize)>>,
) -> (Seq<Seq<(usize, usize)>>, Seq<Seq<char>>, Seq<Seq<char>>)
    decreases lines.len(),
{
    if lines.len() == 0 {
        (data, mw, mt)
    } else {
        let line = lines[0];
        if line.len() == 0 {
            let data2 = if cur.len() > 0 {
                data.push(cur)
            } else {
                data
            };
            parse_lines(lines.drop_first(), mw, mt, Seq::empty(), data2)
        } else {
            let fields = split_on(line, '\t');
            let w = fields[0];
            let wid = key_id(mw, w) as usize;
            let mw2 = mapper_insert(mw, w);
            if fields.len() == 1 {
                parse_lines(lines.drop_first(), mw2, mt, cur.push((wid, 0)), data)
            } else {
                let t = fields[1];
                let tid = key_id(mt, t) as usize;
                let mt2 = mapper_insert(mt, t);
                parse_lines(lines.drop_first(), mw2, mt2, cur.push((wid, tid)), data)
            }
        }
    }
}

/// One sentence of the corpus: `(word_id, tag_id)` pairs; a tag id of
/// zero stands in for a missing tag on unlabelled input.
pub struct Sentence {
    pub tokens: Vec<(usize, usize)>,
}

/// A loaded corpus: the sentences and the two mappers (words and tags)
/// whose ids they use.
pub struct Loader {
    pub data: Vec<Sentence>,
    pub mapper_w: Mapper,
    pub mapper_t: Mapper,
}

/// The token sequences of a list of sentences.
pub open spec fn sent_views(data: Seq<Sentence>) -> Seq<Seq<(usize, usize)>> {
    data.map_values(|s: Sentence| s.tokens@)
}

/// The character of one decimal digit.
pub open spec fn digit_char(d: nat) -> char {
    if d == 0 {
        '0'
    } else if d == 1 {
        '1'
    } else if d == 2 {
        '2'
    } else if d == 3 {
        '3'
    } else if d == 4 {
        '4'
    } else if d == 5 {
        '5'
    } else if d == 6 {
        '6'
    } else if d == 7 {
        '7'
    } else if d == 8 {
        '8'
    } else {
        '9'
    }
}

/// The decimal digits of `n`, most significant first.
pub open spec fn dec_digits(n: nat) -> Seq<char>
    decreases n,
{
    if n < 10 {
        seq![digit_char(n)]
    } else {
        dec_digits(n / 10).push(digit_char(n % 10))
    }
}

/// One rendered token line: ids, then the mapped word and tag.
pub open spec fn render_token(
    pair: (usize, usize),
    words: Seq<Seq<char>>,
    tags: Seq<Seq<char>>,
) -> Seq<char> {
    dec_digits(pair.0 as nat) + seq!['\t'] + dec_digits(pair.1 as nat) + seq!['\t', '(']
        + words[pair.0 as int] + seq![',', ' '] + tags[pair.1 as int] + seq![')', '\n']
}

/// The rendered text of the first `p` tokens of a sentence.
pub open spec fn render_sent_upto(
    toks: Seq<(usize, usize)>,
    words: Seq<Seq<char>>,
    tags: Seq<Seq<char>>,
    p: int,
) -> Seq<char>
    decreases p,
{
    if p <= 0 {
        Seq::empty()
    } else {
        render_sent_upto(toks, words, tags, p - 1) + render_token(toks[p - 1], words, tags)
    }
}

/// The rendered text of one sentence, one line per token.
pub open spec fn render_sent(
    toks: Seq<(usize, usize)>,
    words: Seq<Seq<char>>,
    tags: Seq<Seq<char>>,
) -> Seq<char> {
    render_sent_upto(toks, words, tags, toks.len() as int)
}

/// The rendered text of the first `n` sentences of a corpus.
pub open spec fn render_data_upto(
    data: Seq<Sentence>,
    words: Seq<Seq<char>>,
    tags: Seq<Seq<char>>,
    n: int,
) -> Seq<char>
    decreases n,
{
    if n <= 0 {
        Seq::empty()
    } else {
        render_data_upto(data, words, tags, n - 1) + render_sent(
            data[n - 1].tokens@,
            words,
            tags,
        )
    }
}

/// Render `n` as decimal text.
pub fn fmt_usize(n: usize) -> (s: String)
    ensures
        s@ == dec_digits(n as nat),
    decreases n,
{
    let d = n % 10;
    let ds: &str = if d == 0 {
        "0"
    } else if d == 1 {
        "1"
    } else if d == 2 {
        "2"
    } else if d == 3 {
        "3"
    } else if d == 4 {
        "4"
    } else if d == 5 {
        "5"
    } else if d == 6 {
        "6"
    } else if d == 7 {
        "7"
    } else if d == 8 {
        "8"
    } else {
        "9"
    };
    proof {
        reveal_strlit("0");
        reveal_strlit("1");
        reveal_strlit("2");
        reveal_strlit("3");
        reveal_strlit("4");
        reveal_strlit("5");
        reveal_strlit("6");
        reveal_strlit("7");
        reveal_strlit("8");
        reveal_strlit("9");
        assert(ds@ =~= seq![digit_char((n % 10) as nat)]);
    }
    if n < 10 {
        proof {
            vstd::arithmetic::div_mod::lemma_small_mod(n as nat, 10);
        }
        ds.to_owned()
    } else {
        let mut s = fmt_usize(n / 10);
        s.append(ds);
        proof {
            assert(s@ =~= dec_digits((n / 10) as nat).push(digit_char((n % 10) as nat)));
        }
        s
    }
}

impl Sentence {
    /// Render the sentence, one line per token: the two ids, then the
    /// word and tag they map back to.
    #[verifier::loop_isolation(false)]
    pub fn print(&self, mapper_w: &Mapper, mapper_t: &Mapper) -> (out: String)
        requires
            forall|j: int|
                0 <= j < self.tokens@.len() ==> (#[trigger] self.tokens@[j]).0
                    < mapper_w.view_keys().len() && self.tokens@[j].1
                    < mapper_t.view_keys().len(),
        ensures
            out@ == render_sent(self.tokens@, mapper_w.view_keys(), mapper_t.view_keys()),
    {
        let ghost words = mapper_w.view_keys();
        let ghost tags = mapper_t.view_keys();
        let n = self.tokens.len();
        let mut out = String::new();
        let mut p: usize = 0;
        while p < n
            invariant
                p <= n,
                out@ == render_sent_upto(self.tokens@, words, tags, p as int),
            decreases n - p,
        {
            let (w, t) = self.tokens[p];
            let ghost out0 = out@;
            let ws = fmt_usize(w);
            out.append(ws.as_str());
            out.append("\t");
            let ts = fmt_usize(t);
            out.append(ts.as_str());
            out.append("\t(");
            out.append(mapper_w.keys[w].as_str());
            out.append(", ");
            out.append(mapper_t.keys[t].as_str());
            out.append(")\n");
            proof {
                reveal_strlit("\t");
                reveal_strlit("\t(");
                reveal_strlit(", ");
                reveal_strlit(")\n");
                lemma_keys_index(mapper_w.keys, w as int);
                lemma_keys_index(mapper_t.keys, t as int);
                assert(out@ =~= out0 + render_token(self.tokens@[p as int], words, tags));
            }
            p = p + 1;
        }
        out
    }
}

impl Loader {
    /// Every sentence is nonempty, word ids come from the word mapper,
    /// and tag ids come from the tag mapper, except that the placeholder
    /// tag zero of unlabelled input may outrun an empty tag mapper.
    pub open spec fn wf(&self) -> bool {
        &&& self.mapper_w.wf()
        &&& self.mapper_t.wf()
        &&& forall|i: int|
            0 <= i < self.data@.len() ==> (#[trigger] self.data@[i]).tokens@.len() > 0
        &&& forall|i: int, j: int|
            0 <= i < self.data@.len() && 0 <= j < (#[trigger] self.data@[i]).tokens@.len()
                ==> (#[trigger] self.data@[i].tokens@[j]).0 < self.mapper_w.view_keys().len() && (
            self.data@[i].tokens@[j].1 < self.mapper_t.view_keys().len()
                || self.data@[i].tokens@[j].1 == 0)
    }

    /// Parse tab-separated corpus text: one `word<TAB>tag` token per
    /// line (a line without a tab is an unlabelled word, tag id zero),
    /// a blank line ends a sentence.  Fresh mappers assign the ids.
    pub fn load(contents: &str) -> (l: Loader)
        ensures
            l.wf(),
            ({
                let (d, w, t) = parse_lines(
                    split_on(contents@, '\n'),
                    Seq::empty(),
                    Seq::empty(),
                    Seq::empty(),
                    Seq::empty(),
                );
                &&& sent_views(l.data@) == d
                &&& l.mapper_w.view_keys() == w
                &&& l.mapper_t.view_keys() == t
            }),
    {
        Loader::load_with_mappers(Mapper::empty(), Mapper::empty(), contents)
    }

    /// Parse further corpus text with the mappers of an existing
    /// loader, so that ids stay consistent across files; the returned
    /// loader holds only the new text's sentences.
    pub fn load_from_loader(loader: &Loader, contents: &str) -> (l: Loader)
        requires
            loader.wf(),
        ensures
            l.wf(),
            ({
                let (d, w, t) = parse_lines(
                    split_on(contents@, '\n'),
                    loader.mapper_w.view_keys(),
                    loader.mapper_t.view_keys(),
                    Seq::empty(),
                    Seq::empty(),
                );
                &&& sent_views(l.data@) == d
                &&& l.mapper_w.view_keys() == w
                &&& l.mapper_t.view_keys() == t
            }),
    {
        Loader::load_with_mappers(
            loader.mapper_w.clone_keys(),
            loader.mapper_t.clone_keys(),
            contents,
        )
    }

    /// Parse corpus text with the given mappers, exactly as
    /// `parse_lines` states it.
    #[verifier::loop_isolation(false)]
    fn load_with_mappers(mapper_w: Mapper, mapper_t: Mapper, contents: &str) -> (l: Loader)
        requires
            mapper_w.wf(),
            mapper_t.wf(),
        ensures
            l.wf(),
            ({
                let (d, w, t) = parse_lines(
                    split_on(contents@, '\n'),
                    mapper_w.view_keys(),
                    mapper_t.view_keys(),
                    Seq::empty(),
                    Seq::empty(),
                );
                &&& sent_views(l.data@) == d
                &&& l.mapper_w.view_keys() == w
                &&& l.mapper_t.view_keys() == t
            }),
    {
        let ghost all_lines = split_on(contents@, '\n');
        let ghost target = parse_lines(
            all_lines,
            mapper_w.view_keys(),
            mapper_t.view_keys(),
            Seq::empty(),
            Seq::empty(),
        );
        let mut mw = mapper_w;
        let mut mt = mapper_t;
        let lines = split_str(contents, '\n');
        let n = lines.len();
        let mut data: Vec<Sentence> = Vec::new();
        let mut cur: Vec<(usize, usize)> = Vec::new();
        proof {
            assert(all_lines.skip(0) =~= all_lines);
            assert(sent_views(data@) =~= Seq::<Seq<(usize, usize)>>::empty());
            assert(cur@ =~= Seq::<(usize, usize)>::empty());
        }
        let mut li: usize = 0;
        while li < n
            invariant
                li <= n,
                mw.wf(),
                mt.wf(),
                parse_lines(
                    all_lines.skip(li as int),
                    mw.view_keys(),
                    mt.view_keys(),
                    cur@,
                    sent_views(data@),
                ) == target,
                forall|j: int| 0 <= j < data@.len() ==> (#[trigger] data@[j]).tokens@.len() > 0,
                forall|i: int, j: int|
                    0 <= i < data@.len() && 0 <= j < (#[trigger] data@[i]).tokens@.len() ==> (
                    #[trigger] data@[i].tokens@[j]).0 < mw.view_keys().len() && (
                    data@[i].tokens@[j].1 < mt.view_keys().len() || data@[i].tokens@[j].1 == 0),
                forall|j: int|
                    0 <= j < cur@.len() ==> (#[trigger] cur@[j]).0 < mw.view_keys().len() && (
                    cur@[j].1 < mt.view_keys().len() || cur@[j].1 == 0),
            decreases n - li,
        {
            proof {
                lemma_keys_index(lines, li as int);
                assert(all_lines.skip(li as int).drop_first() =~= all_lines.skip(li as int + 1));
                assert(all_lines.skip(li as int)[0] == all_lines[li as int]);
            }
            let ghost mw0 = mw.view_keys();
            let ghost mt0 = mt.view_keys();
            let ghost cur0 = cur@;
            let ghost data0 = data@;
            if lines[li].as_str().is_empty() {
                if cur.len() != 0 {
                    data.push(Sentence { tokens: cur });
                    cur = Vec::new();
                    proof {
                        assert(sent_views(data@) =~= sent_views(data0).push(cur0));
                        assert(cur@ =~= Seq::<(usize, usize)>::empty());
                    }
                } else {
                    proof {
                        assert(cur@ =~= Seq::<(usize, usize)>::empty());
                    }
                }
            } else {
                let fields = split_str(lines[li].as_str(), '\t');
                let ghost sfields = split_on(all_lines[li as int], '\t');
                proof {
                    lemma_keys_index(fields, 0);
                }
                let wid = mw.update(fields[0].as_str());
                proof {
                    if mw0.contains(sfields[0]) {
                        lemma_key_id_unique(mw0, sfields[0], wid as int);
                    }
                }
                let tid: usize = if fields.len() == 1 {
                    0
                } else {
                    proof {
                        lemma_keys_index(fields, 1);
                    }
                    let t = mt.update(fields[1].as_str());
                    proof {
                        if mt0.contains(sfields[1]) {
                            lemma_key_id_unique(mt0, sfields[1], t as int);
                        }
                    }
                    t
                };
                cur.push((wid, tid));
            }
            proof {
                assert(parse_lines(
                    all_lines.skip(li as int + 1),
                    mw.view_keys(),
                    mt.view_keys(),
                    cur@,
                    sent_views(data@),
                ) == target);
            }
            li = li + 1;
        }
        proof {
            assert(all_lines.skip(n as int) =~= Seq::<Seq<char>>::empty());
        }
        Loader { data, mapper_w: mw, mapper_t: mt }
    }

    /// Render the whole corpus, sentence by sentence.
    #[verifier::loop_isolation(false)]
    pub fn print(&self) -> (out: String)
        requires
            forall|i: int, j: int|
                0 <= i < self.data@.len() && 0 <= j < (#[trigger] self.data@[i]).tokens@.len()
                    ==> (#[trigger] self.data@[i].tokens@[j]).0 < self.mapper_w.view_keys().len()
                    && self.data@[i].tokens@[j].1 < self.mapper_t.view_keys().len(),
        ensures
            out@ == render_data_upto(
                self.data@,
                self.mapper_w.view_keys(),
                self.mapper_t.view_keys(),
                self.data@.len() as int,
            ),
    {
        let ghost words = self.mapper_w.view_keys();
        let ghost tags = self.mapper_t.view_keys();
        let n = self.data.len();
        let mut out = String::new();
        let mut i: usize = 0;
        while i < n
            invariant
                i <= n,
                out@ == render_data_upto(self.data@, words, tags, i as int),
            decreases n - i,
        {
            let piece = self.data[i].print(&self.mapper_w, &self.mapper_t);
            out.append(piece.as_str());
            i = i + 1;
        }
        out
    }
}

} // verus!
