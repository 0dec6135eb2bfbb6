//! The transform: which field of a log event is clustered on, and what is written back to it.
use crate::cache::{holds_key, lemma_value_at, MAX_CAPACITY};
use crate::classifier::LogPatternClassifier;
use crate::cluster::{template_id, template_text, token_texts, ClusterView};
use crate::laws::{
    law_line_is_covered_by_its_cluster, law_written_templates_split_back, templates_are_clean,
};
use crate::model::ClassifierView;
use crate::similarity::{law_one_half, SimThreshold};
use crate::text::words;
use crate::tree::Path;
use vstd::hash_map::StringHashMap;
use vstd::prelude::*;
use vstd::string::*;

verus! {

/// The settings of the transform.
#[derive(Clone, Debug)]
pub struct KubesenseLogPatternConfig {
    /// How many clusters are remembered at most.
    pub max_clusters: usize,
    /// How similar a line has to be to a template.
    pub similarity_threshold: SimThreshold,
    /// The greatest depth of the tree.
    pub max_node_depth: usize,
    /// The greatest number of children of a node.
    pub max_children: usize,
    /// The field to cluster on.
    pub cluster_field: Option<String>,
}

/// How many clusters are remembered where nothing is set.
pub fn default_max_clusters() -> (r: usize)
    ensures
        r == 1000,
{
    1000
}

/// The similarity threshold where nothing is set, one half.
pub fn default_similarity_threshold() -> (r: SimThreshold)
    ensures
        r.bits == 0x3FE0_0000_0000_0000,
        forall|matched: nat, total: nat| #[trigger]
            r.reached_by(matched, total) && 0 < total < 0x10_0000_0000_0000 ==> 2 * matched
                >= total,
        forall|matched: nat, total: nat|
            0 < total < 0x10_0000_0000_0000 && 2 * matched >= total ==> #[trigger] r.reached_by(
                matched,
                total,
            ),
{
    proof {
        assert forall|matched: nat, total: nat|
            0 < total < 0x10_0000_0000_0000 implies ((#[trigger] (SimThreshold {
            bits: 0x3FE0_0000_0000_0000,
        }).reached_by(matched, total)) <==> 2 * matched >= total) by {
            law_one_half(matched, total);
        }
    }
    SimThreshold::from_bits(0x3FE0_0000_0000_0000)
}

/// The greatest depth of the tree where nothing is set.
pub fn default_max_node_depth() -> (r: usize)
    ensures
        r == 6,
{
    6
}

/// The greatest number of children of a node where nothing is set.
pub fn default_max_children() -> (r: usize)
    ensures
        r == 100,
{
    100
}

impl Default for KubesenseLogPatternConfig {
    /// All settings zero, and no field.
    fn default() -> (r: Self)
        ensures
            r.max_clusters == 0,
            r.similarity_threshold.bits == 0,
            r.max_node_depth == 0,
            r.max_children == 0,
            r.cluster_field is None,
    {
        KubesenseLogPatternConfig {
            max_clusters: 0,
            similarity_threshold: SimThreshold::from_bits(0),
            max_node_depth: 0,
            max_children: 0,
            cluster_field: None,
        }
    }
}

/// The fields of a log event that hold text, by their paths.
pub struct LogFields {
    texts: StringHashMap<String>,
}

impl View for LogFields {
    type V = Map<Seq<char>, Seq<char>>;

    closed spec fn view(&self) -> Map<Seq<char>, Seq<char>> {
        self.texts@.map_values(|s: String| s@)
    }
}

impl LogFields {
    /// No fields.
    pub fn new() -> (r: Self)
        ensures
            r@ == Map::<Seq<char>, Seq<char>>::empty(),
    {
        let r = LogFields { texts: StringHashMap::new() };
        assert(r@ =~= Map::<Seq<char>, Seq<char>>::empty());
        r
    }

    /// Adds a field, or replaces its text.
    pub fn insert(&mut self, path: String, text: String)
        ensures
            final(self)@ == old(self)@.insert(path@, text@),
    {
        self.texts.insert(path, text);
        assert(self@ =~= old(self)@.insert(path@, text@));
    }

    /// The text of a field.
    pub fn get(&self, path: &str) -> (r: Option<&String>)
        ensures
            r is Some <==> self@.contains_key(path@),
            r matches Some(text) ==> text@ == self@[path@],
    {
        self.texts.get(path)
    }
}

/// The characters of a string that may be missing.
pub open spec fn text_of(s: Option<String>) -> Option<Seq<char>> {
    match s {
        Some(s) => Some(s@),
        None => None,
    }
}

/// The text of a field that may be missing.
pub open spec fn field(log: Map<Seq<char>, Seq<char>>, path: Seq<char>) -> Option<Seq<char>> {
    if log.contains_key(path) {
        Some(log[path])
    } else {
        None
    }
}

/// The path of the field in which an event may name the field to cluster on.
pub open spec fn naming_path(message_key: Seq<char>) -> Seq<char> {
    message_key + ".message_key"@
}

/// The field that an event is clustered on, and the line in it. The field is the one that is set,
/// else the one that the event names, and there may be no line in it; where there is neither, it
/// is the message, if that is text.
pub open spec fn cluster_line(
    cluster_field: Option<Seq<char>>,
    log: Map<Seq<char>, Seq<char>>,
    message_key: Seq<char>,
) -> (Option<Seq<char>>, Option<Seq<char>>) {
    let named = match cluster_field {
        Some(name) => Some(name),
        None => field(log, naming_path(message_key)),
    };
    match named {
        Some(name) => (Some(name), field(log, name)),
        None => match field(log, message_key) {
            Some(text) => (Some(message_key), Some(text)),
            None => (None, None),
        },
    }
}

/// The path of the field in which an event may name the field to cluster on.
pub fn naming_field(message_key: &str) -> (r: String)
    ensures
        r@ == naming_path(message_key@),
{
    let mut path = message_key.to_owned();
    path.append(".message_key");
    path
}

/// The paths whose texts decide what an event is clustered on, where it names a field or does not.
pub open spec fn deciding_paths(
    cluster_field: Option<Seq<char>>,
    message_key: Seq<char>,
    named: Option<Seq<char>>,
) -> Seq<Seq<char>> {
    match (cluster_field, named) {
        (Some(name), _) => seq![name],
        (None, Some(name)) => seq![naming_path(message_key), name],
        (None, None) => seq![naming_path(message_key), message_key],
    }
}

/// Two events with the same texts at the paths that decide for one of them have the same field to
/// be clustered on, and the same line in it.
pub proof fn law_deciding_paths_decide(
    cluster_field: Option<Seq<char>>,
    log: Map<Seq<char>, Seq<char>>,
    other: Map<Seq<char>, Seq<char>>,
    message_key: Seq<char>,
)
    requires
        forall|i: int|
            #![trigger deciding_paths(
                cluster_field,
                message_key,
                field(log, naming_path(message_key)),
            )[i]]
            {
                let paths = deciding_paths(
                    cluster_field,
                    message_key,
                    field(log, naming_path(message_key)),
                );
                0 <= i < paths.len() ==> field(other, paths[i]) == field(log, paths[i])
            },
    ensures
        cluster_line(cluster_field, other, message_key) == cluster_line(
            cluster_field,
            log,
            message_key,
        ),
{
    let paths = deciding_paths(cluster_field, message_key, field(log, naming_path(message_key)));
    assert(field(other, paths[0]) == field(log, paths[0]));
    if cluster_field is None {
        assert(field(other, paths[1]) == field(log, paths[1]));
    }
}

/// What is written to the clustered field: the identifier of the cluster, how many lines it has
/// taken, and its template.
#[derive(Debug)]
pub struct ClusterFields {
    pub cluster_id: String,
    pub match_count: i64,
    pub template: String,
}

/// What becomes of a log event.
#[derive(Debug)]
pub enum LogChange {
    /// There is no line to cluster: the event stays as it is.
    Keep,
    /// The cluster of the line is written to the field.
    Write(String, ClusterFields),
    /// The line cannot be taken.
    Refuse,
}

/// The model of [`ClusterFields`].
pub struct FieldsView {
    pub cluster_id: Seq<char>,
    pub match_count: i64,
    pub template: Seq<char>,
}

/// The model of a [`LogChange`].
pub enum ChangeView {
    Keep,
    Write(Seq<char>, FieldsView),
    Refuse,
}

impl View for ClusterFields {
    type V = FieldsView;

    open spec fn view(&self) -> FieldsView {
        FieldsView {
            cluster_id: self.cluster_id@,
            match_count: self.match_count,
            template: self.template@,
        }
    }
}

impl View for LogChange {
    type V = ChangeView;

    open spec fn view(&self) -> ChangeView {
        match self {
            LogChange::Keep => ChangeView::Keep,
            LogChange::Write(name, fields) => ChangeView::Write(name@, fields@),
            LogChange::Refuse => ChangeView::Refuse,
        }
    }
}

/// What is written for a cluster.
pub open spec fn cluster_fields(cluster: ClusterView) -> FieldsView {
    FieldsView {
        cluster_id: template_id(cluster.template),
        match_count: cluster.size as i64,
        template: template_text(cluster.template),
    }
}

/// What an event does to the classifier, and what becomes of the event. It is kept where it has no
/// line to cluster, and refused where the classifier cannot take its line.
pub open spec fn transformed(
    parser: ClassifierView,
    cluster_field: Option<Seq<char>>,
    log: Map<Seq<char>, Seq<char>>,
    message_key: Seq<char>,
) -> (ClassifierView, ChangeView) {
    match cluster_line(cluster_field, log, message_key) {
        (Some(name), Some(text)) => {
            let line = words(text, parser.settings.extra_delimiters);
            if parser.accepts(line) {
                let after = parser.added(line);
                (after, ChangeView::Write(name, cluster_fields(after.clusters[0].1)))
            } else {
                (parser, ChangeView::Refuse)
            }
        },
        _ => (parser, ChangeView::Keep),
    }
}

/// Whether the texts of an event can be those that are left once a cluster is written to a field:
/// there is no text in that field any more, the event names the field that it named or none, and
/// an event whose message has a field to name another has no text for a message.
pub open spec fn is_written(
    log: Map<Seq<char>, Seq<char>>,
    after: Map<Seq<char>, Seq<char>>,
    name: Seq<char>,
    message_key: Seq<char>,
) -> bool {
    let naming = naming_path(message_key);
    &&& !after.contains_key(name)
    &&& after.contains_key(naming) ==> field(after, naming) == field(log, naming)
    &&& log.contains_key(naming) ==> !after.contains_key(message_key)
}

/// An event that a cluster was written to is kept as it is when it comes again, and leaves the
/// classifier as it is.
pub proof fn law_written_event_is_kept(
    parser: ClassifierView,
    cluster_field: Option<Seq<char>>,
    log: Map<Seq<char>, Seq<char>>,
    after: Map<Seq<char>, Seq<char>>,
    message_key: Seq<char>,
)
    requires
        transformed(parser, cluster_field, log, message_key).1 matches ChangeView::Write(name, _)
            && is_written(log, after, name, message_key),
    ensures
        ({
            let next = transformed(parser, cluster_field, log, message_key).0;
            transformed(next, cluster_field, after, message_key) == (next, ChangeView::Keep)
        }),
{
}

/// Whether a path leads to a field below another.
pub open spec fn is_below(path: Seq<char>, name: Seq<char>) -> bool {
    (name + "."@).is_prefix_of(path)
}

/// Whether no field that is text has fields below it that are.
pub open spec fn is_nested(log: Map<Seq<char>, Seq<char>>) -> bool {
    forall|p: Seq<char>, q: Seq<char>|
        #![trigger log.contains_key(p), log.contains_key(q)]
        log.contains_key(p) && log.contains_key(q) ==> !is_below(p, q)
}

/// The texts of an event once a cluster is written to a field: those of the cluster are below the
/// field, in the place of all that was in it.
pub open spec fn with_fields(
    log: Map<Seq<char>, Seq<char>>,
    name: Seq<char>,
    fields: FieldsView,
) -> Map<Seq<char>, Seq<char>> {
    Map::new(
        |p: Seq<char>| log.contains_key(p) && p != name && !is_below(p, name),
        |p: Seq<char>| log[p],
    ).insert(name + ".cluster_id"@, fields.cluster_id).insert(name + ".template"@, fields.template)
}

/// The texts of an event after the transform.
pub open spec fn output(log: Map<Seq<char>, Seq<char>>, change: ChangeView) -> Map<
    Seq<char>,
    Seq<char>,
> {
    match change {
        ChangeView::Write(name, fields) => with_fields(log, name, fields),
        _ => log,
    }
}

/// An event that has been transformed is kept as it is when it comes again, and leaves the
/// classifier as it is.
pub proof fn law_transform_of_its_own_output_changes_nothing(
    parser: ClassifierView,
    cluster_field: Option<Seq<char>>,
    log: Map<Seq<char>, Seq<char>>,
    message_key: Seq<char>,
)
    requires
        is_nested(log),
        !(transformed(parser, cluster_field, log, message_key).1 is Refuse),
    ensures
        ({
            let (next, change) = transformed(parser, cluster_field, log, message_key);
            transformed(next, cluster_field, output(log, change), message_key) == (
                next,
                ChangeView::Keep,
            )
        }),
{
    let change = transformed(parser, cluster_field, log, message_key).1;
    if change is Write {
        lemma_output_is_written(parser, cluster_field, log, message_key);
        law_written_event_is_kept(
            parser,
            cluster_field,
            log,
            output(log, change),
            message_key,
        );
    }
}

/// What is left of an event is what can be left once its cluster is written.
proof fn lemma_output_is_written(
    parser: ClassifierView,
    cluster_field: Option<Seq<char>>,
    log: Map<Seq<char>, Seq<char>>,
    message_key: Seq<char>,
)
    requires
        is_nested(log),
        transformed(parser, cluster_field, log, message_key).1 is Write,
    ensures
        ({
            let change = transformed(parser, cluster_field, log, message_key).1;
            is_written(log, output(log, change), change->Write_0, message_key)
        }),
{
    let change = transformed(parser, cluster_field, log, message_key).1;
    let name = change->Write_0;
    let naming = naming_path(message_key);
    reveal_strlit(".");
    reveal_strlit(".message_key");
    reveal_strlit(".cluster_id");
    reveal_strlit(".template");
    let n = name.len() as int;
    let id_path = name + ".cluster_id"@;
    let template_path = name + ".template"@;
    assert(naming.last() == 'y' && id_path.last() == 'd' && template_path.last() == 'e');
    assert(log.contains_key(name));
    if log.contains_key(naming) {
        assert(is_below(naming, message_key));
        if message_key == id_path || message_key == template_path {
            assert((name + "."@) =~= naming.take(n + 1));
            assert(is_below(naming, name));
        }
    }
}

/// The classifier that a transform starts out with.
pub open spec fn configured(config: KubesenseLogPatternConfig) -> ClassifierView {
    ClassifierView::initial(config.max_clusters as nat).with_sim_threshold(
        config.similarity_threshold,
    ).with_max_node_depth(config.max_node_depth).with_max_children(config.max_children)
}

/// The transform.
pub struct KubesenseLogPattern {
    parser: LogPatternClassifier,
    cluster_field: Option<String>,
}

impl KubesenseLogPattern {
    /// The model of the classifier.
    pub closed spec fn parser(&self) -> ClassifierView {
        self.parser@
    }

    /// The field to cluster on.
    pub closed spec fn cluster_field(&self) -> Option<Seq<char>> {
        text_of(self.cluster_field)
    }

    /// What holds of every transform.
    pub closed spec fn wf(&self) -> bool {
        self.parser.wf()
    }

    /// The transform with the given settings.
    pub fn new(config: &KubesenseLogPatternConfig) -> (r: Self)
        requires
            0 < config.max_clusters <= MAX_CAPACITY,
        ensures
            r.wf(),
            r.cluster_field() == text_of(config.cluster_field),
            r.parser() == configured(*config),
    {
        KubesenseLogPattern {
            parser: LogPatternClassifier::new(config.max_clusters).sim_threshold(
                config.similarity_threshold,
            ).max_node_depth(config.max_node_depth).max_children(config.max_children),
            cluster_field: config.cluster_field.clone(),
        }
    }

    /// The paths of an event whose texts are to be looked at, given the field that it names.
    pub fn paths_to_read(&self, message_key: &str, named: Option<String>) -> (r: Vec<String>)
        ensures
            r@.map_values(|s: String| s@) == deciding_paths(
                self.cluster_field(),
                message_key@,
                text_of(named),
            ),
    {
        let mut paths: Vec<String> = Vec::new();
        match &self.cluster_field {
            Some(name) => {
                paths.push(name.clone());
            },
            None => {
                paths.push(naming_field(message_key));
                match named {
                    Some(name) => {
                        paths.push(name);
                    },
                    None => {
                        paths.push(message_key.to_owned());
                    },
                }
            },
        }
        assert(paths@.map_values(|s: String| s@) =~= deciding_paths(
            self.cluster_field(),
            message_key@,
            text_of(named),
        ));
        paths
    }

    /// The field that an event is clustered on, and the line in it.
    pub fn get_cluster_line(&self, log: &LogFields, message_key: &str) -> (r: (
        Option<String>,
        Option<String>,
    ))
        ensures
            (text_of(r.0), text_of(r.1)) == cluster_line(
                self.cluster_field(),
                log@,
                message_key@,
            ),
    {
        let field_name: Option<String> = match &self.cluster_field {
            Some(name) => Some(name.clone()),
            None => {
                let path = naming_field(message_key);
                match log.get(path.as_str()) {
                    Some(name) => Some(name.clone()),
                    None => None,
                }
            },
        };
        match field_name {
            None => match log.get(message_key) {
                Some(text) => (Some(message_key.to_owned()), Some(text.clone())),
                None => (None, None),
            },
            Some(name) => {
                let line: Option<String> = match log.get(name.as_str()) {
                    Some(text) => Some(text.clone()),
                    None => None,
                };
                (Some(name), line)
            },
        }
    }

    /// Clusters the line of an event, and says what becomes of the event.
    pub fn transform_log(&mut self, log: &LogFields, message_key: &str) -> (r: LogChange)
        requires
            old(self).wf(),
        ensures
            final(self).wf(),
            final(self).cluster_field() == old(self).cluster_field(),
            (final(self).parser(), r@) == transformed(
                old(self).parser(),
                old(self).cluster_field(),
                log@,
                message_key@,
            ),
    {
        let (field_name, line) = match self.get_cluster_line(log, message_key) {
            (Some(field_name), Some(line)) => (field_name, line),
            _ => {
                return LogChange::Keep;
            },
        };
        if !self.parser.accepts(line.as_str()) {
            return LogChange::Refuse;
        }
        let (group, _group_status) = self.parser.add_log_message(line.as_str());
        LogChange::Write(
            field_name,
            ClusterFields {
                cluster_id: group.cluster_id(),
                match_count: group.cluster_size() as i64,
                template: group.template(),
            },
        )
    }
}

/// The line of an event: where a field is set, the text in it; else where the message has a field
/// `message_key` that is text, the text in the field that this names; else the message.
pub proof fn law_line_of_an_event(
    cluster_field: Option<Seq<char>>,
    log: Map<Seq<char>, Seq<char>>,
    message_key: Seq<char>,
)
    ensures
        ({
            let (name, line) = cluster_line(cluster_field, log, message_key);
            let naming = message_key + seq![
                '.',
                'm',
                'e',
                's',
                's',
                'a',
                'g',
                'e',
                '_',
                'k',
                'e',
                'y',
            ];
            &&& cluster_field matches Some(set) ==> name == Some(set)
            &&& cluster_field is None && log.contains_key(naming) ==> name == Some(log[naming])
            &&& cluster_field is None && !log.contains_key(naming) ==> name == if log.contains_key(
                message_key,
            ) {
                Some(message_key)
            } else {
                None
            }
            &&& name matches Some(path) ==> line == if log.contains_key(path) {
                Some(log[path])
            } else {
                None
            }
            &&& name is None ==> line is None
        }),
{
    reveal_strlit(".message_key");
    let naming = message_key + seq!['.', 'm', 'e', 's', 's', 'a', 'g', 'e', '_', 'k', 'e', 'y'];
    assert(naming_path(message_key) =~= naming);
}

/// An event without a line is kept, one with a line that cannot be taken is refused, and neither
/// changes the classifier; every other one has the cluster of its line written to its field.
pub proof fn law_what_becomes_of_an_event(
    parser: ClassifierView,
    cluster_field: Option<Seq<char>>,
    log: Map<Seq<char>, Seq<char>>,
    message_key: Seq<char>,
)
    ensures
        ({
            let (name, line) = cluster_line(cluster_field, log, message_key);
            let (after, change) = transformed(parser, cluster_field, log, message_key);
            &&& line is None ==> change is Keep && after == parser
            &&& line matches Some(text) ==> {
                let tokens = words(text, parser.settings.extra_delimiters);
                if parser.accepts(tokens) {
                    &&& after == parser.added(tokens)
                    &&& change matches ChangeView::Write(written, fields) && name == Some(written)
                } else {
                    change is Refuse && after == parser
                }
            }
        }),
{
}

/// The count that is written is how many lines the cluster has taken, and what is written with it
/// are the identifier and the text of its template.
pub proof fn law_written_count_is_the_size(
    parser: ClassifierView,
    cluster_field: Option<Seq<char>>,
    log: Map<Seq<char>, Seq<char>>,
    message_key: Seq<char>,
)
    ensures
        ({
            let (after, change) = transformed(parser, cluster_field, log, message_key);
            change matches ChangeView::Write(name, fields) ==> {
                let cluster = after.clusters[0].1;
                &&& cluster.size <= i64::MAX ==> fields.match_count as int == cluster.size as int
                &&& fields.cluster_id == template_id(cluster.template)
                &&& fields.template == template_text(cluster.template)
            }
        }),
{
}

/// Of two events in a row whose lines are in one cluster the second one has a count that is greater
/// by one; the first event of a cluster has the count one.
pub proof fn law_counts_go_up_by_one(
    parser: ClassifierView,
    cluster_field: Option<Seq<char>>,
    first: Map<Seq<char>, Seq<char>>,
    second: Map<Seq<char>, Seq<char>>,
    message_key: Seq<char>,
)
    requires
        parser.wf(),
        transformed(parser, cluster_field, first, message_key).1 is Write,
        ({
            let next = transformed(parser, cluster_field, first, message_key).0;
            let (last, change) = transformed(next, cluster_field, second, message_key);
            &&& change is Write
            &&& last.clusters[0].0 == next.clusters[0].0
            &&& next.clusters[0].1.size < i64::MAX
        }),
    ensures
        ({
            let (next, change) = transformed(parser, cluster_field, first, message_key);
            let again = transformed(next, cluster_field, second, message_key).1;
            &&& again->Write_1.match_count == change->Write_1.match_count + 1
            &&& next.clusters_count > parser.clusters_count ==> change->Write_1.match_count == 1
        }),
{
    let (next, change) = transformed(parser, cluster_field, first, message_key);
    let text = cluster_line(cluster_field, first, message_key).1->0;
    let line = words(text, parser.settings.extra_delimiters);
    parser.lemma_added(line);
    law_line_is_covered_by_its_cluster(parser, line);
    let other = cluster_line(cluster_field, second, message_key).1->0;
    let tokens = words(other, next.settings.extra_delimiters);
    law_line_is_covered_by_its_cluster(next, tokens);
    lemma_value_at(next.clusters, 0);
    if next.search(tokens) is None {
        assert(holds_key(next.clusters, next.clusters[0].0));
    }
}

/// The template that is written splits back, at white space, into as many words as the line has,
/// each of them the word of the line or `<*>`.
pub proof fn law_written_template_fits_the_line(
    parser: ClassifierView,
    cluster_field: Option<Seq<char>>,
    log: Map<Seq<char>, Seq<char>>,
    message_key: Seq<char>,
    i: int,
)
    requires
        parser.wf(),
        templates_are_clean(parser),
        transformed(parser, cluster_field, log, message_key).1 is Write,
        ({
            let text = cluster_line(cluster_field, log, message_key).1->0;
            0 <= i < words(text, parser.settings.extra_delimiters).len()
        }),
    ensures
        ({
            let text = cluster_line(cluster_field, log, message_key).1->0;
            let line = words(text, parser.settings.extra_delimiters);
            let fields = transformed(parser, cluster_field, log, message_key).1->Write_1;
            let written = words(fields.template, seq![]);
            &&& written.len() == line.len()
            &&& written[i] == line[i] || written[i] == seq!['<', '*', '>']
        }),
{
    let text = cluster_line(cluster_field, log, message_key).1->0;
    let line = words(text, parser.settings.extra_delimiters);
    let template = parser.added(line).clusters[0].1.template;
    reveal_strlit("<*>");
    assert("<*>"@ =~= seq!['<', '*', '>']);
    law_written_templates_split_back(parser, text);
    law_line_is_covered_by_its_cluster(parser, line);
    assert(template[i].fits(line[i]));
    assert(token_texts(template)[i] == template[i].text());
}

/// A transform starts out with the settings of its configuration, without clusters and without
/// extra delimiters, and takes tokens with numbers for parameters.
pub proof fn law_configuration_is_applied(config: KubesenseLogPatternConfig)
    ensures
        configured(config).capacity == config.max_clusters,
        configured(config).settings.sim_threshold == config.similarity_threshold,
        configured(config).settings.max_node_depth == config.max_node_depth,
        configured(config).settings.max_children == config.max_children,
        configured(config).settings.parameterize_numeric_tokens,
        configured(config).settings.extra_delimiters.len() == 0,
        configured(config).clusters.len() == 0,
        configured(config).clusters_count == 0,
        forall|p: Path| !configured(config).tree.contains_key(p),
{
}

}
