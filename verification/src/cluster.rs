//! Clusters of log lines that share a template.
use crate::fingerprint::{
    digest_id, digest_text, finish, hashed, is_plain, law_digest_text_is_base64,
    law_digest_text_tells_digests_apart, xxh3_64,
};
use crate::text::{
    any_numeric, has_numeric, is_delimiter, is_word, joined,
    law_joined_words_split_back, law_one_blank_joins, law_words_are_clean, lemma_encode_injective,
    texts, wide_char_is_numeric, words, Tokens,
};
use crate::token::{Token, TokenView};
use vstd::arithmetic::power2::pow2;
use vstd::prelude::*;
use vstd::string::*;
use vstd::utf8::encode_utf8;
use xxhash_rust::xxh3::Xxh3;

verus! {

/// The number that a classifier gives to each of its clusters.
pub type LocalId = usize;

/// A cluster of log lines: their common template, and how many lines it has taken.
#[derive(Debug)]
pub struct LogCluster {
    template_tokens: Vec<Token>,
    cluster_size: usize,
    cluster_local_id: LocalId,
}

/// The model of a [`LogCluster`].
pub struct ClusterView {
    pub template: Seq<TokenView>,
    pub size: usize,
    pub local_id: LocalId,
}

/// How many places of a template hold the token of the line: the quotient of two counts.
#[derive(Clone, Copy, Debug, PartialEq, Eq, Structural)]
pub struct Similarity {
    pub matched: usize,
    pub total: usize,
}

/// The models of the tokens of a template.
pub open spec fn token_views(tokens: Seq<Token>) -> Seq<TokenView> {
    tokens.map_values(|t: Token| t@)
}

impl View for LogCluster {
    type V = ClusterView;

    closed spec fn view(&self) -> ClusterView {
        ClusterView {
            template: token_views(self.template_tokens@),
            size: self.cluster_size,
            local_id: self.cluster_local_id,
        }
    }
}

/// The template that a line starts out with: its words, or open places for those with numbers
/// where these are parameters.
pub open spec fn fresh_template(line: Seq<Seq<char>>, parameterize: bool) -> Seq<TokenView> {
    Seq::new(
        line.len(),
        |i: int|
            if parameterize && has_numeric(line[i]) {
                TokenView::Wildcard
            } else {
                TokenView::Value(line[i])
            },
    )
}

/// The template that a template becomes with one more line: every place where they differ is
/// open.
pub open spec fn absorbed(template: Seq<TokenView>, line: Seq<Seq<char>>) -> Seq<TokenView> {
    Seq::new(
        template.len(),
        |i: int|
            if template[i] == TokenView::Value(line[i]) {
                template[i]
            } else {
                TokenView::Wildcard
            },
    )
}

/// How many of the first `k` places of a template hold the word of the line.
pub open spec fn matches(template: Seq<TokenView>, line: Seq<Seq<char>>, k: nat) -> nat
    decreases k,
{
    if k == 0 {
        0
    } else {
        matches(template, line, (k - 1) as nat) + if template[k - 1] == TokenView::Value(
            line[k - 1],
        ) {
            1nat
        } else {
            0
        }
    }
}

/// How many of the first `k` places of a template are open.
pub open spec fn wildcards(template: Seq<TokenView>, k: nat) -> nat
    decreases k,
{
    if k == 0 {
        0
    } else {
        wildcards(template, (k - 1) as nat) + if template[k - 1] == TokenView::Wildcard {
            1nat
        } else {
            0
        }
    }
}

/// How similar a template is to a line of its length: how many places match, and out of how many.
/// A line without words is like its template in full.
pub open spec fn similarity(template: Seq<TokenView>, line: Seq<Seq<char>>) -> (nat, nat) {
    if line.len() == 0 {
        (1, 1)
    } else {
        (matches(template, line, line.len()), line.len())
    }
}

/// What the tokens of a template are written as.
pub open spec fn token_texts(template: Seq<TokenView>) -> Seq<Seq<char>> {
    template.map_values(|t: TokenView| t.text())
}

/// A template as it is written: its tokens with a blank between each two.
pub open spec fn template_text(template: Seq<TokenView>) -> Seq<char> {
    joined(token_texts(template))
}

/// The bytes that stand for a template in its fingerprint.
pub open spec fn template_bytes(template: Seq<TokenView>) -> Seq<u8>
    decreases template.len(),
{
    if template.len() == 0 {
        seq![]
    } else {
        template_bytes(template.drop_last()) + template.last().hash_bytes()
    }
}

/// The identifier of a template: the base64 text of its fingerprint.
pub open spec fn template_id(template: Seq<TokenView>) -> Seq<char> {
    digest_text(xxh3_64(template_bytes(template)))
}

/// Whether a line has the length of a template and fits each of its places.
pub open spec fn covers(template: Seq<TokenView>, line: Seq<Seq<char>>) -> bool {
    template.len() == line.len() && forall|i: int|
        0 <= i < line.len() ==> (#[trigger] template[i]).fits(line[i])
}

impl LogCluster {
    /// How many lines the cluster has taken.
    pub fn cluster_size(&self) -> (r: usize)
        ensures
            r == self@.size,
    {
        self.cluster_size
    }

    /// The identifier of the cluster's template.
    pub fn cluster_id(&self) -> (r: String)
        ensures
            r@ == template_id(self@.template),
    {
        let mut hasher = Xxh3::new();
        let ghost template = self@.template;
        let mut i: usize = 0;
        assert(template.take(0) =~= seq![]);
        while i < self.template_tokens.len()
            invariant
                template == token_views(self.template_tokens@),
                i <= template.len(),
                hashed(hasher) == template_bytes(template.take(i as int)),
                is_plain(hasher),
            decreases template.len() - i,
        {
            self.template_tokens[i].hash(&mut hasher);
            assert(template.take(i + 1).drop_last() =~= template.take(i as int));
            i += 1;
        }
        assert(template.take(i as int) =~= template);
        digest_id(finish(&hasher))
    }

    /// The template as it is written.
    pub fn template(&self) -> (r: String)
        ensures
            r@ == template_text(self@.template),
    {
        let mut text = String::new();
        let ghost template = self@.template;
        let mut i: usize = 0;
        while i < self.template_tokens.len()
            invariant
                template == token_views(self.template_tokens@),
                i <= template.len(),
                text@ == template_text(template.take(i as int)),
            decreases template.len() - i,
        {
            if i > 0 {
                text.append(" ");
                proof {
                    reveal_strlit(" ");
                    assert(" "@ =~= seq![' ']);
                }
            }
            text.append(self.template_tokens[i].text());
            proof {
                assert(token_texts(template.take(i + 1)).drop_last() =~= token_texts(
                    template.take(i as int),
                ));
                assert(text@ =~= template_text(template.take(i + 1)));
            }
            i += 1;
        }
        assert(template.take(i as int) =~= template);
        text
    }

    /// The tokens of the template.
    pub fn template_tokens(&self) -> (r: &Vec<Token>)
        ensures
            token_views(r@) == self@.template,
    {
        &self.template_tokens
    }

    /// The number of the cluster.
    pub fn local_id(&self) -> (r: LocalId)
        ensures
            r == self@.local_id,
    {
        self.cluster_local_id
    }

    /// A cluster of one line.
    pub fn new(cluster_id: LocalId, parameterize_numeric_tokens: bool, tokens: Tokens) -> (r:
        Self)
        ensures
            r@ == (ClusterView {
                template: fresh_template(texts(tokens@), parameterize_numeric_tokens),
                size: 1,
                local_id: cluster_id,
            }),
    {
        let mut template_tokens: Vec<Token> = Vec::new();
        let ghost fresh = fresh_template(texts(tokens@), parameterize_numeric_tokens);
        let mut i: usize = 0;
        while i < tokens.len()
            invariant
                i <= tokens.len(),
                fresh == fresh_template(texts(tokens@), parameterize_numeric_tokens),
                token_views(template_tokens@) =~= fresh.take(i as int),
            decreases tokens.len() - i,
        {
            let ghost before = template_tokens@;
            let word = tokens[i];
            if parameterize_numeric_tokens && any_numeric(word) {
                template_tokens.push(Token::Wildcard);
            } else {
                template_tokens.push(Token::Value(word.to_owned()));
            }
            assert(texts(tokens@)[i as int] == word@);
            assert(token_views(template_tokens@) =~= token_views(before).push(fresh[i as int]));
            assert(fresh.take(i + 1) =~= fresh.take(i as int).push(fresh[i as int]));
            i += 1;
        }
        assert(fresh.take(i as int) =~= fresh);
        LogCluster { template_tokens, cluster_size: 1, cluster_local_id: cluster_id }
    }

    /// How similar the template is to a line, and how many of its places are open.
    pub fn seq_dist(&self, tokens: &Tokens) -> (r: (Similarity, usize))
        requires
            self@.template.len() == tokens@.len(),
        ensures
            (r.0.matched as nat, r.0.total as nat) == similarity(self@.template, texts(tokens@)),
            r.0.matched <= r.0.total,
            r.0.total > 0,
            r.1 == wildcards(self@.template, tokens@.len()),
    {
        let ghost template = self@.template;
        let ghost line = texts(tokens@);
        if tokens.len() == 0 {
            return (Similarity { matched: 1, total: 1 }, 0);
        }
        let mut sim_count: usize = 0;
        let mut param_count: usize = 0;
        let mut i: usize = 0;
        while i < tokens.len()
            invariant
                i <= tokens.len(),
                template == token_views(self.template_tokens@),
                template.len() == tokens@.len(),
                line == texts(tokens@),
                sim_count == matches(template, line, i as nat),
                param_count == wildcards(template, i as nat),
                sim_count + param_count <= i,
            decreases tokens.len() - i,
        {
            match &self.template_tokens[i] {
                Token::Wildcard => {
                    param_count += 1;
                },
                Token::Value(value) => {
                    if *value.as_str() == *tokens[i] {
                        sim_count += 1;
                    }
                },
            }
            assert(template[i as int] == self.template_tokens@[i as int]@);
            assert(line[i as int] == tokens@[i as int]@);
            i += 1;
        }
        (Similarity { matched: sim_count, total: tokens.len() }, param_count)
    }

    /// Opens the places where the template and a line differ. Says whether any was opened.
    pub fn update(&mut self, tokens: &Tokens) -> (updated: bool)
        requires
            old(self)@.template.len() == tokens@.len(),
        ensures
            final(self)@ == (ClusterView {
                template: absorbed(old(self)@.template, texts(tokens@)),
                ..old(self)@
            }),
            updated == (final(self)@.template != old(self)@.template),
    {
        let ghost template = self@.template;
        let ghost line = texts(tokens@);
        let ghost after = absorbed(template, line);
        let mut updated = false;
        let mut i: usize = 0;
        while i < self.template_tokens.len()
            invariant
                i <= self.template_tokens@.len() == template.len() == tokens@.len(),
                template == old(self)@.template,
                line == texts(tokens@),
                after == absorbed(template, line),
                self.cluster_size == old(self)@.size,
                self.cluster_local_id == old(self)@.local_id,
                forall|k: int|
                    0 <= k < i ==> (#[trigger] self.template_tokens@[k])@ == after[k],
                forall|k: int|
                    i <= k < template.len() ==> (#[trigger] self.template_tokens@[k])@
                        == template[k],
                updated <==> exists|k: int| 0 <= k < i && #[trigger] after[k] != template[k],
            decreases template.len() - i,
        {
            let differs = match &self.template_tokens[i] {
                Token::Wildcard => false,
                Token::Value(value) => !(*value.as_str() == *tokens[i]),
            };
            assert(self.template_tokens@[i as int]@ == template[i as int]);
            assert(line[i as int] == tokens@[i as int]@);
            assert(differs == (after[i as int] != template[i as int]));
            if differs {
                self.template_tokens[i] = Token::Wildcard;
                updated = true;
            }
            i += 1;
        }
        assert(self@.template =~= after);
        assert(after == template ==> !updated);
        if !updated {
            assert(after =~= template);
        }
        updated
    }

    /// Counts one more line.
    pub fn count_line(&mut self)
        requires
            old(self)@.size < usize::MAX,
        ensures
            final(self)@ == (ClusterView {
                size: (old(self)@.size + 1) as usize,
                ..old(self)@
            }),
    {
        self.cluster_size += 1;
    }
}

/// The template that a line starts out with covers it.
pub proof fn law_fresh_template_covers_line(line: Seq<Seq<char>>, parameterize: bool)
    ensures
        covers(fresh_template(line, parameterize), line),
{
}

/// A template covers every line that it has absorbed.
pub proof fn law_absorbed_line_is_covered(template: Seq<TokenView>, line: Seq<Seq<char>>)
    requires
        template.len() == line.len(),
    ensures
        covers(absorbed(template, line), line),
{
}

/// A line that a template covers is covered still when the template has absorbed another.
pub proof fn law_covered_lines_stay_covered(
    template: Seq<TokenView>,
    covered: Seq<Seq<char>>,
    line: Seq<Seq<char>>,
)
    requires
        covers(template, covered),
        template.len() == line.len(),
    ensures
        covers(absorbed(template, line), covered),
{
    assert forall|i: int| 0 <= i < covered.len() implies (#[trigger] absorbed(
        template,
        line,
    )[i]).fits(covered[i]) by {
        assert(template[i].fits(covered[i]));
    }
}

/// A template absorbs a line that it covers without a change, and only such a line.
pub proof fn law_covered_line_changes_nothing(template: Seq<TokenView>, line: Seq<Seq<char>>)
    requires
        template.len() == line.len(),
    ensures
        covers(template, line) <==> absorbed(template, line) == template,
{
    if covers(template, line) {
        assert(absorbed(template, line) =~= template) by {
            assert forall|i: int| 0 <= i < line.len() implies absorbed(template, line)[i]
                == template[i] by {
                assert(template[i].fits(line[i]));
            }
        }
    } else if absorbed(template, line) == template {
        law_absorbed_line_is_covered(template, line);
    }
}

/// It does not matter in which order a template absorbs two lines.
pub proof fn law_absorption_commutes(
    template: Seq<TokenView>,
    a: Seq<Seq<char>>,
    b: Seq<Seq<char>>,
)
    ensures
        absorbed(absorbed(template, a), b) == absorbed(absorbed(template, b), a),
{
    assert(absorbed(absorbed(template, a), b) =~= absorbed(absorbed(template, b), a));
}

/// A template that has absorbed a line has as many matches with it as before, and no fewer open
/// places.
pub proof fn law_absorption_keeps_matches(
    template: Seq<TokenView>,
    line: Seq<Seq<char>>,
    k: nat,
)
    requires
        k <= template.len() == line.len(),
    ensures
        matches(absorbed(template, line), line, k) == matches(template, line, k),
        wildcards(absorbed(template, line), k) >= wildcards(template, k),
    decreases k,
{
    if k > 0 {
        law_absorption_keeps_matches(template, line, (k - 1) as nat);
    }
}

/// Each place of a template matches, is open, or differs: matches and open places are no more than
/// places.
pub proof fn law_counts_are_bounded(template: Seq<TokenView>, line: Seq<Seq<char>>, k: nat)
    ensures
        matches(template, line, k) + wildcards(template, k) <= k,
    decreases k,
{
    if k > 0 {
        law_counts_are_bounded(template, line, (k - 1) as nat);
    }
}

/// The places of a template that covers a line match or are open: there are no others.
pub proof fn law_covering_template_counts(template: Seq<TokenView>, line: Seq<Seq<char>>, k: nat)
    requires
        covers(template, line),
        k <= line.len(),
    ensures
        matches(template, line, k) + wildcards(template, k) == k,
    decreases k,
{
    if k > 0 {
        law_covering_template_counts(template, line, (k - 1) as nat);
        assert(template[k - 1].fits(line[k - 1]));
    }
}

/// Whether every fixed token of a template is a word between white space.
pub open spec fn is_clean(template: Seq<TokenView>) -> bool {
    forall|i: int|
        0 <= i < template.len() && #[trigger] template[i] != TokenView::Wildcard ==> is_word(
            template[i].text(),
            seq![],
        )
}

/// A written template splits back into its tokens at white space.
pub proof fn law_written_template_splits_back(template: Seq<TokenView>)
    requires
        is_clean(template),
    ensures
        words(template_text(template), seq![]) == token_texts(template),
{
    reveal_strlit("<*>");
    assert forall|w: int| 0 <= w < template.len() implies is_word(
        #[trigger] token_texts(template)[w],
        seq![],
    ) by {
        assert(template[w] == template[w]);
    }
    law_joined_words_split_back(token_texts(template), seq![]);
}

/// The template of a line of words is clean.
pub proof fn law_fresh_template_is_clean(text: Seq<char>, extra: Seq<char>, parameterize: bool)
    ensures
        is_clean(fresh_template(words(text, extra), parameterize)),
{
    law_words_are_clean(text, extra);
    let line = words(text, extra);
    assert forall|i: int| 0 <= i < line.len() implies is_word(#[trigger] line[i], seq![]) by {
        assert forall|k: int| 0 <= k < line[i].len() implies !is_delimiter(
            #[trigger] line[i][k],
            seq![],
        ) by {
            assert(!is_delimiter(line[i][k], extra));
        }
    }
}

/// A clean template stays clean with one more line.
pub proof fn law_absorption_keeps_clean(template: Seq<TokenView>, line: Seq<Seq<char>>)
    requires
        is_clean(template),
    ensures
        is_clean(absorbed(template, line)),
{
    assert forall|i: int|
        0 <= i < template.len() && #[trigger] absorbed(template, line)[i]
            != TokenView::Wildcard implies is_word(absorbed(template, line)[i].text(), seq![]) by {
        assert(template[i] == absorbed(template, line)[i]);
    }
}

/// The places of a template that match a line are all those, of the first ones that are looked at,
/// that hold the word of the line.
pub proof fn law_every_match_counts(template: Seq<TokenView>, line: Seq<Seq<char>>, k: nat)
    ensures
        Set::new(|i: int| 0 <= i < k && template[i] == TokenView::Value(line[i])).finite(),
        matches(template, line, k) == Set::new(
            |i: int| 0 <= i < k && template[i] == TokenView::Value(line[i]),
        ).len(),
    decreases k,
{
    let all = Set::new(|i: int| 0 <= i < k && template[i] == TokenView::Value(line[i]));
    if k == 0 {
        assert(all =~= Set::empty());
    } else {
        law_every_match_counts(template, line, (k - 1) as nat);
        let before = Set::new(
            |i: int| 0 <= i < k - 1 && template[i] == TokenView::Value(line[i]),
        );
        if template[k - 1] == TokenView::Value(line[k - 1]) {
            assert(all =~= before.insert(k - 1));
        } else {
            assert(all =~= before);
        }
    }
}

/// The open places of a template are all those, of the first ones that are looked at, that hold a
/// wildcard.
pub proof fn law_every_open_place_counts(template: Seq<TokenView>, k: nat)
    ensures
        Set::new(|i: int| 0 <= i < k && template[i] == TokenView::Wildcard).finite(),
        wildcards(template, k) == Set::new(
            |i: int| 0 <= i < k && template[i] == TokenView::Wildcard,
        ).len(),
    decreases k,
{
    let all = Set::new(|i: int| 0 <= i < k && template[i] == TokenView::Wildcard);
    if k == 0 {
        assert(all =~= Set::empty());
    } else {
        law_every_open_place_counts(template, (k - 1) as nat);
        let before = Set::new(|i: int| 0 <= i < k - 1 && template[i] == TokenView::Wildcard);
        if template[k - 1] == TokenView::Wildcard {
            assert(all =~= before.insert(k - 1));
        } else {
            assert(all =~= before);
        }
    }
}

/// The similarity of a template and a line is how many words of the line stand at their places in
/// the template, out of all the words of the line. An empty line is like an empty template in full.
pub proof fn law_similarity_is_the_share_of_matches(
    template: Seq<TokenView>,
    line: Seq<Seq<char>>,
)
    ensures
        line.len() > 0 ==> similarity(template, line).0 == Set::new(
            |i: int| 0 <= i < line.len() && template[i] == TokenView::Value(line[i]),
        ).len(),
        line.len() > 0 ==> similarity(template, line).1 == line.len(),
        line.len() == 0 ==> similarity(template, line) == (1nat, 1nat),
{
    law_every_match_counts(template, line, line.len());
}

/// A template of fixed words is like the line of these words in full, however many there are, and
/// has no open places.
pub proof fn law_same_words_match_in_full(template: Seq<TokenView>, line: Seq<Seq<char>>)
    requires
        template.len() == line.len() > 0,
        forall|i: int| 0 <= i < line.len() ==> #[trigger] template[i] == TokenView::Value(line[i]),
    ensures
        similarity(template, line) == (line.len(), line.len()),
        wildcards(template, line.len()) == 0,
{
    lemma_same_words(template, line, line.len());
}

/// All of the first places of a template of fixed words match.
proof fn lemma_same_words(template: Seq<TokenView>, line: Seq<Seq<char>>, k: nat)
    requires
        template.len() == line.len(),
        k <= line.len(),
        forall|i: int| 0 <= i < line.len() ==> #[trigger] template[i] == TokenView::Value(line[i]),
    ensures
        matches(template, line, k) == k,
        wildcards(template, k) == 0,
    decreases k,
{
    if k > 0 {
        lemma_same_words(template, line, (k - 1) as nat);
    }
}

/// The template of a new line is made word by word: that of two lines in a row is their templates in
/// a row, and a word is a fixed token, unless numbers are parameters and it holds one.
pub proof fn law_template_is_made_word_by_word(
    a: Seq<Seq<char>>,
    b: Seq<Seq<char>>,
    word: Seq<char>,
    parameterize: bool,
)
    ensures
        fresh_template(a + b, parameterize) == fresh_template(a, parameterize) + fresh_template(
            b,
            parameterize,
        ),
        fresh_template(seq![word], parameterize) == if parameterize && has_numeric(word) {
            seq![TokenView::Wildcard]
        } else {
            seq![TokenView::Value(word)]
        },
{
    assert(fresh_template(a + b, parameterize) =~= fresh_template(a, parameterize)
        + fresh_template(b, parameterize));
    assert(fresh_template(seq![word], parameterize) =~= if parameterize && has_numeric(word) {
        seq![TokenView::Wildcard]
    } else {
        seq![TokenView::Value(word)]
    });
}

/// Where numbers are parameters, no fixed token of a new template holds a numeric character, at any
/// place; and the places of words without any are not open.
pub proof fn law_no_number_is_fixed(line: Seq<Seq<char>>, i: int)
    requires
        0 <= i < line.len(),
    ensures
        fresh_template(line, true)[i] matches TokenView::Value(w) ==> w == line[i] && forall|j: int|
            0 <= j < w.len() ==> !('0' <= #[trigger] w[j] <= '9') && !(w[j] > '\u{7f}'
                && wide_char_is_numeric(w[j])),
        fresh_template(line, true)[i] == TokenView::Wildcard ==> exists|j: int|
            0 <= j < line[i].len() && ('0' <= #[trigger] line[i][j] <= '9' || (line[i][j]
                > '\u{7f}' && wide_char_is_numeric(line[i][j]))),
        fresh_template(line, false)[i] == TokenView::Value(line[i]),
{
    let w = line[i];
    if has_numeric(w) {
        let j = choose|j: int| 0 <= j < w.len() && crate::text::is_numeric(#[trigger] w[j]);
        assert('0' <= w[j] <= '9' || (w[j] > '\u{7f}' && wide_char_is_numeric(w[j])));
    } else {
        assert forall|j: int| 0 <= j < w.len() implies !('0' <= #[trigger] w[j] <= '9') && !(w[j]
            > '\u{7f}' && wide_char_is_numeric(w[j])) by {
            assert(!crate::text::is_numeric(w[j]));
        }
    }
}

/// A template absorbs a line place by place: two parts of it absorb two parts of the line, a fixed
/// token stays exactly where the line has the same word, and an open place stays open.
pub proof fn law_absorption_is_place_by_place(
    a: Seq<TokenView>,
    b: Seq<TokenView>,
    x: Seq<Seq<char>>,
    y: Seq<Seq<char>>,
    fixed: Seq<char>,
    word: Seq<char>,
)
    requires
        a.len() == x.len(),
        b.len() == y.len(),
    ensures
        absorbed(a + b, x + y) == absorbed(a, x) + absorbed(b, y),
        absorbed(seq![TokenView::Value(word)], seq![word]) == seq![TokenView::Value(word)],
        fixed != word ==> absorbed(seq![TokenView::Value(fixed)], seq![word]) == seq![
            TokenView::Wildcard,
        ],
        absorbed(seq![TokenView::Wildcard], seq![word]) == seq![TokenView::Wildcard],
{
    assert(absorbed(a + b, x + y) =~= absorbed(a, x) + absorbed(b, y));
    assert(absorbed(seq![TokenView::Value(word)], seq![word]) =~= seq![TokenView::Value(word)]);
    if fixed != word {
        assert(absorbed(seq![TokenView::Value(fixed)], seq![word]) =~= seq![TokenView::Wildcard]);
    }
    assert(absorbed(seq![TokenView::Wildcard], seq![word]) =~= seq![TokenView::Wildcard]);
}

/// A template is written token by token with one blank between: a fixed token as its text, a
/// wildcard as `<*>`.
pub proof fn law_template_is_written_token_by_token(
    a: Seq<TokenView>,
    b: Seq<TokenView>,
    word: Seq<char>,
)
    ensures
        a.len() > 0 && b.len() > 0 ==> template_text(a + b) == template_text(a).push(' ')
            + template_text(b),
        template_text(seq![TokenView::Value(word)]) == word,
        template_text(seq![TokenView::Wildcard]) == seq!['<', '*', '>'],
        template_text(seq![]) == Seq::<char>::empty(),
{
    reveal_strlit("<*>");
    assert("<*>"@ =~= seq!['<', '*', '>']);
    assert(token_texts(a + b) =~= token_texts(a) + token_texts(b));
    assert(token_texts(seq![TokenView::Value(word)]) =~= seq![word]);
    assert(token_texts(seq![TokenView::Wildcard]) =~= seq!["<*>"@]);
    assert(token_texts(seq![]) =~= seq![]);
    law_one_blank_joins(token_texts(a), token_texts(b), word);
    law_one_blank_joins(token_texts(a), token_texts(b), "<*>"@);
}

/// The bytes of a template are those of all its tokens, in order: one for a wildcard, and two and
/// the UTF-8 encoding of its text for a fixed token.
pub proof fn law_every_token_has_its_bytes(
    a: Seq<TokenView>,
    b: Seq<TokenView>,
    word: Seq<char>,
)
    ensures
        template_bytes(a + b) == template_bytes(a) + template_bytes(b),
        template_bytes(seq![TokenView::Wildcard]) == seq![1u8],
        template_bytes(seq![TokenView::Value(word)]) == seq![2u8] + encode_utf8(word),
        template_bytes(seq![]) == Seq::<u8>::empty(),
    decreases b.len(),
{
    if b.len() == 0 {
        assert(a + b =~= a);
        assert(template_bytes(a) + template_bytes(b) =~= template_bytes(a));
    } else {
        law_every_token_has_its_bytes(a, b.drop_last(), word);
        assert((a + b).drop_last() =~= a + b.drop_last());
        assert(template_bytes(a + b) =~= template_bytes(a) + template_bytes(b));
    }
    lemma_bytes_of_token(TokenView::Wildcard);
    lemma_bytes_of_token(TokenView::Value(word));
}

/// The bytes of a template of one token are those of the token.
proof fn lemma_bytes_of_token(t: TokenView)
    ensures
        template_bytes(seq![t]) == t.hash_bytes(),
{
    assert(seq![t].drop_last() =~= seq![]);
    assert(template_bytes(seq![t].drop_last()) =~= seq![]);
    assert(template_bytes(seq![t]) =~= t.hash_bytes());
}

/// Whether no fixed token of a template holds one of the characters that have the marks of tokens
/// for their bytes.
pub open spec fn is_unmarked(template: Seq<TokenView>) -> bool {
    forall|i: int, j: int|
        #![trigger template[i]->Value_0[j]]
        0 <= i < template.len() && template[i] is Value && 0 <= j < template[i]->Value_0.len()
            ==> template[i]->Value_0[j] != '\u{1}' && template[i]->Value_0[j] != '\u{2}'
}

/// The encoding of a text without the characters of the marks has none of their bytes.
proof fn lemma_unmarked_bytes(s: Seq<char>)
    requires
        forall|j: int| 0 <= j < s.len() ==> #[trigger] s[j] != '\u{1}' && s[j] != '\u{2}',
    ensures
        forall|j: int|
            0 <= j < encode_utf8(s).len() ==> #[trigger] encode_utf8(s)[j] != 1 && encode_utf8(
                s,
            )[j] != 2,
    decreases s.len(),
{
    if s.len() > 0 {
        let c = s[0] as u32;
        lemma_unmarked_bytes(s.drop_first());
        vstd::utf8::char_is_scalar(s[0]);
        let first = vstd::utf8::encode_scalar(c);
        assert forall|j: int| 0 <= j < first.len() implies #[trigger] first[j] != 1 && first[j]
            != 2 by {
            if vstd::utf8::has_width_1_encoding(c) {
                vstd::utf8::char_u32_cast(s[0], c);
                assert(c != 1 && c != 2) by {
                    assert(1u32 as char == '\u{1}' && 2u32 as char == '\u{2}');
                }
                assert(vstd::utf8::leading_byte_width_1(c) == c) by (bit_vector)
                    requires
                        vstd::utf8::has_width_1_encoding(c),
                ;
            } else {
                assert(vstd::utf8::leading_byte_width_2(c) >= 0x80u8) by (bit_vector);
                assert(vstd::utf8::leading_byte_width_3(c) >= 0x80u8) by (bit_vector);
                assert(vstd::utf8::leading_byte_width_4(c) >= 0x80u8) by (bit_vector);
                assert(vstd::utf8::last_continuation_byte(c) >= 0x80u8) by (bit_vector);
                assert(vstd::utf8::second_last_continuation_byte(c) >= 0x80u8) by (bit_vector);
                assert(vstd::utf8::third_last_continuation_byte(c) >= 0x80u8) by (bit_vector);
            }
        }
        let rest = encode_utf8(s.drop_first());
        assert(encode_utf8(s) =~= first + rest);
    }
}

/// Templates without the characters of the marks that have the same bytes are the same template.
pub proof fn law_bytes_tell_templates_apart(a: Seq<TokenView>, b: Seq<TokenView>)
    requires
        is_unmarked(a),
        is_unmarked(b),
        template_bytes(a) == template_bytes(b),
    ensures
        a == b,
    decreases a.len(),
{
    if a.len() > 0 && b.len() > 0 {
        let x = a.drop_first();
        let y = b.drop_first();
        lemma_bytes_from_the_front(a);
        lemma_bytes_from_the_front(b);
        assert(is_unmarked(x)) by {
            assert forall|i: int, j: int|
                #![trigger x[i]->Value_0[j]]
                0 <= i < x.len() && x[i] is Value && 0 <= j < x[i]->Value_0.len() implies x[i]->Value_0[j]
                != '\u{1}' && x[i]->Value_0[j] != '\u{2}' by {
                assert(a[i + 1]->Value_0[j] == x[i]->Value_0[j]);
            }
        }
        assert(is_unmarked(y)) by {
            assert forall|i: int, j: int|
                #![trigger y[i]->Value_0[j]]
                0 <= i < y.len() && y[i] is Value && 0 <= j < y[i]->Value_0.len() implies y[i]->Value_0[j]
                != '\u{1}' && y[i]->Value_0[j] != '\u{2}' by {
                assert(b[i + 1]->Value_0[j] == y[i]->Value_0[j]);
            }
        }
        let p = a[0].hash_bytes();
        let q = b[0].hash_bytes();
        assert((p + template_bytes(x))[0] == p[0] && (q + template_bytes(y))[0] == q[0]);
        lemma_no_shorter_first_token(a, b);
        lemma_no_shorter_first_token(b, a);
        assert(p =~= (p + template_bytes(x)).take(p.len() as int));
        assert(q =~= (q + template_bytes(y)).take(q.len() as int));
        assert(p == q);
        match (a[0], b[0]) {
            (TokenView::Value(s), TokenView::Value(t)) => {
                assert(encode_utf8(s) =~= p.skip(1) && encode_utf8(t) =~= q.skip(1));
                lemma_encode_injective(s, t);
            },
            _ => {},
        }
        assert(template_bytes(x) =~= (p + template_bytes(x)).skip(p.len() as int));
        assert(template_bytes(y) =~= (q + template_bytes(y)).skip(q.len() as int));
        law_bytes_tell_templates_apart(x, y);
        assert(a =~= seq![a[0]] + x);
        assert(b =~= seq![b[0]] + y);
    } else if a.len() > 0 {
        lemma_bytes_from_the_front(a);
        assert(b =~= seq![]);
        assert(template_bytes(a).len() > 0);
    } else if b.len() > 0 {
        lemma_bytes_from_the_front(b);
        assert(a =~= seq![]);
        assert(template_bytes(b).len() > 0);
    } else {
        assert(a =~= b);
    }
}

/// The bytes of a template are those of its first token, then those of the others, which start
/// with a mark.
proof fn lemma_bytes_from_the_front(template: Seq<TokenView>)
    requires
        template.len() > 0,
    ensures
        template_bytes(template) == template[0].hash_bytes() + template_bytes(
            template.drop_first(),
        ),
        template_bytes(template).len() > 0,
        template_bytes(template)[0] == 1 || template_bytes(template)[0] == 2,
{
    law_every_token_has_its_bytes(seq![template[0]], template.drop_first(), seq![]);
    lemma_bytes_of_token(template[0]);
    assert(template =~= seq![template[0]] + template.drop_first());
}

/// Of two templates with the same bytes neither has a shorter first token: behind it there would be
/// a mark, or nothing, inside the text of the other.
proof fn lemma_no_shorter_first_token(a: Seq<TokenView>, b: Seq<TokenView>)
    requires
        a.len() > 0,
        b.len() > 0,
        is_unmarked(b),
        template_bytes(a) == template_bytes(b),
    ensures
        a[0].hash_bytes().len() >= b[0].hash_bytes().len(),
{
    lemma_bytes_from_the_front(a);
    lemma_bytes_from_the_front(b);
    let p = a[0].hash_bytes();
    let q = b[0].hash_bytes();
    let n = p.len() as int;
    let rest = template_bytes(a.drop_first());
    if p.len() < q.len() {
        assert(b[0] is Value);
        let s = b[0]->Value_0;
        assert forall|j: int| 0 <= j < s.len() implies #[trigger] s[j] != '\u{1}' && s[j] != '\u{2}' by {
            assert(b[0]->Value_0[j] == s[j]);
        }
        lemma_unmarked_bytes(s);
        assert(n >= 1);
        assert(template_bytes(b)[n] == q[n] && q[n] == encode_utf8(s)[n - 1]);
        if a.len() > 1 {
            lemma_bytes_from_the_front(a.drop_first());
            assert(template_bytes(a)[n] == rest[0]);
        } else {
            assert(a.drop_first() =~= seq![]);
            assert(template_bytes(a).len() == n);
        }
    }
}

/// The identifier of a template is the base64 text of the digest of its bytes: six bits for each
/// character of the standard alphabet, from the high end, and the last four with two zeros.
pub proof fn law_identifier_is_the_digest_in_base64(template: Seq<TokenView>, i: int)
    requires
        0 <= i < 11,
    ensures
        template_id(template).len() == 11,
        ({
            let digest = xxh3_64(template_bytes(template)) as nat;
            let alphabet = "ABCDEFGHIJKLMNOPQRSTUVWXYZabcdefghijklmnopqrstuvwxyz0123456789+/"@;
            template_id(template)[i] == if i < 10 {
                alphabet[(digest / pow2((58 - 6 * i) as nat) % 64) as int]
            } else {
                alphabet[(digest % 16 * 4) as int]
            }
        }),
{
    law_digest_text_is_base64(xxh3_64(template_bytes(template)), i);
}

/// Templates have the same identifier exactly where their bytes have the same digest.
pub proof fn law_identifiers_are_those_of_digests(a: Seq<TokenView>, b: Seq<TokenView>)
    ensures
        template_id(a) == template_id(b) <==> xxh3_64(template_bytes(a)) == xxh3_64(
            template_bytes(b),
        ),
{
    if template_id(a) == template_id(b) {
        law_digest_text_tells_digests_apart(
            xxh3_64(template_bytes(a)),
            xxh3_64(template_bytes(b)),
        );
    }
}

}
