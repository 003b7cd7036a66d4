//! The struct configuration document: its struct nodes live in an arena and
//! are addressed by keys.

use crate::cfg_syntax::{
    advance, begin_word, classify, classify_line, close_line, closed_structs, kinds_of,
    lemma_overflow_first, lemma_overflow_stays, lemma_read_is_parse, open_line, overflow_line,
    parse_text, read_kinds, read_text, render_entries, render_entry, render_text, root_scope,
    run_kinds, value_line, with_entry, Entry, Keywords, Line, ParseError, Scope, Token, MAX_STRUCTS,
};
use crate::text::{
    chars_of, join_lines, lemma_join_lines_concat, lemma_join_lines_one, push_str, spaces,
    split_lines, string_of, views,
};
use crate::cfg_json::{
    lower_doc, lower_entries, lower_entry, max_nesting, raise_doc, raise_entries, raise_entry,
};
use crate::json::{
    json_array, json_as_array, json_as_str, json_get, json_model, json_object2, json_object3,
    json_string, models, Json,
};
use crate::merge::{merge_json_values, merged_json, MergeError};
use serde_json::Value;
use slotmap::{DefaultKey, SlotMap};
use vstd::prelude::*;

verus! {

/// `slotmap::DefaultKey`: an opaque handle to a slot of a `SlotMap`.
#[verifier::external_type_specification]
#[verifier::external_body]
pub struct ExDefaultKey(DefaultKey);

/// The arena of struct nodes: a `slotmap::SlotMap`, which hands out a key
/// for each node put in.
#[verifier::external_body]
pub struct StructArena {
    slots: SlotMap<DefaultKey, Stalker2CfgStruct>,
}

/// A named struct: its trailing text and its entries in order.
pub struct Stalker2CfgStruct {
    pub name: String,
    pub meta: String,
    pub values: Vec<Stalker2CfgValue>,
}

/// One entry: a value where `value` is set, else the struct that `struct_key`
/// addresses.
pub struct Stalker2CfgValue {
    pub name: String,
    pub value: Option<String>,
    pub struct_key: Option<DefaultKey>,
}

/// The struct nodes that an arena holds, by key.
pub uninterp spec fn arena_nodes(arena: StructArena) -> Map<
    DefaultKey,
    Stalker2CfgStruct,
>;

/// `SlotMap::new`: an arena that holds nothing.
#[verifier::external_body]
fn arena_new() -> (arena: StructArena)
    ensures
        arena_nodes(arena).dom() == Set::<DefaultKey>::empty(),
{
    StructArena { slots: SlotMap::new() }
}

/// `SlotMap::insert`: stores the node under a key that addressed nothing
/// before, and leaves every other key as it was. An arena holds fewer than
/// `u32::MAX - 1` nodes.
#[verifier::external_body]
fn arena_insert(arena: &mut StructArena, node: Stalker2CfgStruct) -> (key:
    DefaultKey)
    requires
        arena_nodes(*old(arena)).dom().finite(),
        arena_nodes(*old(arena)).len() < u32::MAX - 1,
    ensures
        !arena_nodes(*old(arena)).contains_key(key),
        arena_nodes(*final(arena)) == arena_nodes(*old(arena)).insert(key, node),
{
    arena.slots.insert(node)
}

/// `SlotMap::get`: the node that the key addresses, if any.
#[verifier::external_body]
fn arena_get(arena: &StructArena, key: DefaultKey) -> (node: Option<
    &Stalker2CfgStruct,
>)
    ensures
        node == if arena_nodes(*arena).contains_key(key) {
            Some(&arena_nodes(*arena)[key])
        } else {
            None
        },
{
    arena.slots.get(key)
}

/// Above the rank of every node: an arena holds fewer nodes than this.
pub open spec fn top_rank() -> nat {
    0xFFFF_FFFF
}

/// An entry that stands for something: it has a value, or its key
/// addresses a node.
pub open spec fn supported(nodes: Map<DefaultKey, Stalker2CfgStruct>, v: Stalker2CfgValue) -> bool {
    v.value is Some || (v.struct_key is Some && nodes.contains_key(v.struct_key->0))
}

/// Every entry of a list stands for something.
pub open spec fn all_supported(
    nodes: Map<DefaultKey, Stalker2CfgStruct>,
    values: Seq<Stalker2CfgValue>,
) -> bool {
    forall|i: int| 0 <= i < values.len() ==> supported(nodes, #[trigger] values[i])
}

/// Every node's entries are supported, and a struct among them has a lower
/// rank than the node: the nodes form trees.
pub open spec fn well_ranked(
    nodes: Map<DefaultKey, Stalker2CfgStruct>,
    rank: Map<DefaultKey, nat>,
) -> bool {
    &&& nodes.dom().finite()
    &&& forall|k: DefaultKey| #[trigger] nodes.contains_key(k) ==> rank[k] < nodes.len()
    &&& forall|k: DefaultKey| #[trigger]
        nodes.contains_key(k) ==> all_supported(nodes, nodes[k].values@)
    &&& forall|k: DefaultKey, i: int|
        nodes.contains_key(k) && 0 <= i < nodes[k].values.len() && (#[trigger] nodes[k].values[i]).value is None
            ==> rank[nodes[k].values[i].struct_key->0] < rank[k]
}

/// The entry that `v` stands for. A struct is followed only where its rank
/// is under `below`.
pub open spec fn entry_tree(
    nodes: Map<DefaultKey, Stalker2CfgStruct>,
    rank: Map<DefaultKey, nat>,
    v: Stalker2CfgValue,
    below: nat,
) -> Entry
    decreases below, 0nat,
{
    match v.value {
        Some(text) => Entry::Value { name: v.name@, value: text@ },
        None => {
            if v.struct_key is Some && nodes.contains_key(v.struct_key->0) && rank[v.struct_key->0]
                < below {
                let node = nodes[v.struct_key->0];
                Entry::Struct {
                    name: node.name@,
                    meta: node.meta@,
                    entries: entries_tree(
                        nodes,
                        rank,
                        node.values@,
                        rank[v.struct_key->0],
                        node.values@.len(),
                    ),
                }
            } else {
                Entry::Struct { name: v.name@, meta: Seq::empty(), entries: Seq::empty() }
            }
        },
    }
}

/// The entries that the first `count` of `values` stand for.
pub open spec fn entries_tree(
    nodes: Map<DefaultKey, Stalker2CfgStruct>,
    rank: Map<DefaultKey, nat>,
    values: Seq<Stalker2CfgValue>,
    below: nat,
    count: nat,
) -> Seq<Entry>
    decreases below, count,
{
    if count == 0 || count > values.len() {
        Seq::empty()
    } else {
        entries_tree(nodes, rank, values, below, (count - 1) as nat).push(
            entry_tree(nodes, rank, values[count - 1], below),
        )
    }
}

/// The entries of a whole list that stands outside the arena.
pub open spec fn list_tree(
    nodes: Map<DefaultKey, Stalker2CfgStruct>,
    rank: Map<DefaultKey, nat>,
    values: Seq<Stalker2CfgValue>,
) -> Seq<Entry> {
    entries_tree(nodes, rank, values, top_rank(), values.len())
}

/// The same entries come out under any two bounds that lie above the rank
/// of every struct among the values.
pub proof fn lemma_entries_bound(
    nodes: Map<DefaultKey, Stalker2CfgStruct>,
    rank: Map<DefaultKey, nat>,
    values: Seq<Stalker2CfgValue>,
    b1: nat,
    b2: nat,
    count: nat,
)
    requires
        forall|i: int|
            0 <= i < values.len() && (#[trigger] values[i]).value is None
                && values[i].struct_key is Some ==> rank[values[i].struct_key->0] < b1
                && rank[values[i].struct_key->0] < b2,
    ensures
        entries_tree(nodes, rank, values, b1, count) == entries_tree(nodes, rank, values, b2, count),
    decreases count,
{
    if count == 0 || count > values.len() {
    } else {
        lemma_entries_bound(nodes, rank, values, b1, b2, (count - 1) as nat);
        let v = values[count - 1];
        assert(entry_tree(nodes, rank, v, b1) == entry_tree(nodes, rank, v, b2));
    }
}

/// A node put under a new key changes no entry that was supported before.
pub proof fn lemma_entries_frame(
    nodes: Map<DefaultKey, Stalker2CfgStruct>,
    rank: Map<DefaultKey, nat>,
    key: DefaultKey,
    node: Stalker2CfgStruct,
    r: nat,
    values: Seq<Stalker2CfgValue>,
    below: nat,
    count: nat,
)
    requires
        !nodes.contains_key(key),
        all_supported(nodes, values),
        forall|k: DefaultKey| #[trigger]
            nodes.contains_key(k) ==> all_supported(nodes, nodes[k].values@),
    ensures
        entries_tree(nodes.insert(key, node), rank.insert(key, r), values, below, count)
            == entries_tree(nodes, rank, values, below, count),
    decreases below, count,
{
    if count == 0 || count > values.len() {
    } else {
        lemma_entries_frame(nodes, rank, key, node, r, values, below, (count - 1) as nat);
        let v = values[count - 1];
        let nodes2 = nodes.insert(key, node);
        let rank2 = rank.insert(key, r);
        assert(supported(nodes, v));
        if v.value is None {
            let k = v.struct_key->0;
            assert(nodes.contains_key(k));
            assert(k != key);
            assert(nodes2.contains_key(k) && nodes2[k] == nodes[k] && rank2[k] == rank[k]);
            if rank[k] < below {
                lemma_entries_frame(
                    nodes,
                    rank,
                    key,
                    node,
                    r,
                    nodes[k].values@,
                    rank[k],
                    nodes[k].values@.len(),
                );
            }
        }
        assert(entry_tree(nodes2, rank2, v, below) == entry_tree(nodes, rank, v, below));
    }
}

/// A struct that is being read.
pub struct OpenScope {
    pub name: String,
    pub meta: String,
    pub values: Vec<Stalker2CfgValue>,
}

/// The scope that a struct under construction stands for.
pub open spec fn scope_view(
    nodes: Map<DefaultKey, Stalker2CfgStruct>,
    rank: Map<DefaultKey, nat>,
    scope: OpenScope,
) -> Scope {
    Scope { name: scope.name@, meta: scope.meta@, entries: list_tree(nodes, rank, scope.values@) }
}

/// The scopes that the structs under construction stand for.
pub open spec fn scopes_view(
    nodes: Map<DefaultKey, Stalker2CfgStruct>,
    rank: Map<DefaultKey, nat>,
    scopes: Seq<OpenScope>,
) -> Seq<Scope> {
    Seq::new(scopes.len(), |i: int| scope_view(nodes, rank, scopes[i]))
}

/// A struct configuration document.
pub struct Stalker2Cfg {
    name: String,
    structs: StructArena,
    root_values: Vec<Stalker2CfgValue>,
    rank: Ghost<Map<DefaultKey, nat>>,
}

impl View for Stalker2Cfg {
    type V = Seq<Entry>;

    /// The document as a tree of entries.
    closed spec fn view(&self) -> Seq<Entry> {
        list_tree(arena_nodes(self.structs), self.rank@, self.root_values@)
    }
}

impl Stalker2Cfg {
    /// Every key in the document addresses a node, and the nodes form trees.
    pub closed spec fn wf(&self) -> bool {
        &&& well_ranked(arena_nodes(self.structs), self.rank@)
        &&& all_supported(arena_nodes(self.structs), self.root_values@)
        &&& arena_nodes(self.structs).len() < top_rank()
    }

    /// The name that the document was read under.
    pub closed spec fn spec_name(&self) -> Seq<char> {
        self.name@
    }

    /// The name that the document was read under.
    pub fn name(&self) -> (name: &String)
        ensures
            name@ == self.spec_name(),
    {
        &self.name
    }

    /// Reads a document from its text. Lines are numbered from 1 in errors. A
    /// document holds `MAX_STRUCTS` structs at most.
    pub fn from_str(name: String, cfg_str: &str) -> (result: Result<Stalker2Cfg, ParseError>)
        ensures
            match result {
                Ok(doc) => doc.wf() && doc.spec_name() == name@ && read_text(cfg_str@) == Ok::<
                    Seq<Entry>,
                    ParseError,
                >(doc@) && parse_text(cfg_str@) == read_text(cfg_str@),
                Err(e) => read_text(cfg_str@) == Err::<Seq<Entry>, ParseError>(e),
            },
    {
        let text = chars_of(cfg_str);
        let lines = split_lines(&text);
        let words = Keywords::new();
        let mut tokens: Vec<Token> = Vec::new();
        let mut n: usize = 0;
        while n < lines.len()
            invariant
                n <= lines.len(),
                words.wf(),
                tokens@.len() == n,
                forall|j: int| 0 <= j < n ==> (#[trigger] tokens@[j])@ == classify(lines@[j]@),
            decreases lines.len() - n,
        {
            tokens.push(classify_line(&lines[n], &words));
            n += 1;
        }
        proof {
            lemma_read_is_parse(cfg_str@);
            assert(token_views(tokens@) =~= kinds_of(views(lines@)));
        }
        Stalker2Cfg::from_tokens(name, &tokens)
    }

    /// Builds the document of lines that were read as `tokens`.
    pub fn from_tokens(name: String, tokens: &Vec<Token>) -> (result: Result<
        Stalker2Cfg,
        ParseError,
    >)
        ensures
            match result {
                Ok(doc) => doc.wf() && doc.spec_name() == name@ && read_kinds(
                    token_views(tokens@),
                ) == Ok::<Seq<Entry>, ParseError>(doc@),
                Err(e) => read_kinds(token_views(tokens@)) == Err::<Seq<Entry>, ParseError>(e),
            },
    {
        let ghost kinds = token_views(tokens@);
        let mut arena = arena_new();
        let mut rank: Ghost<Map<DefaultKey, nat>> = Ghost(Map::empty());
        let mut scopes: Vec<OpenScope> = Vec::new();
        scopes.push(OpenScope { name: String::new(), meta: String::new(), values: Vec::new() });
        proof {
            assert(scopes_view(arena_nodes(arena), rank@, scopes@) =~= seq![root_scope()]);
            assert(kinds.take(0) =~= Seq::<Line>::empty());
        }
        let mut count: usize = 0;
        let mut i: usize = 0;
        while i < tokens.len()
            invariant
                i <= tokens.len(),
                kinds == token_views(tokens@),
                scopes.len() >= 1,
                well_ranked(arena_nodes(arena), rank@),
                arena_nodes(arena).len() == count,
                count <= MAX_STRUCTS,
                closed_structs(kinds.take(i as int)) == count,
                overflow_line(kinds.take(i as int)) is None,
                forall|j: int|
                    0 <= j < scopes.len() ==> all_supported(
                        arena_nodes(arena),
                        (#[trigger] scopes[j]).values@,
                    ),
                run_kinds(seq![root_scope()], kinds.take(i as int)) == Ok::<
                    Seq<Scope>,
                    ParseError,
                >(scopes_view(arena_nodes(arena), rank@, scopes@)),
            decreases tokens.len() - i,
        {
            let ghost done = kinds.take(i as int);
            let ghost upto = kinds.take(i + 1);
            let ghost before = scopes_view(arena_nodes(arena), rank@, scopes@);
            let ghost nodes0 = arena_nodes(arena);
            let ghost rank0 = rank@;
            let ghost scopes0 = scopes@;
            proof {
                assert(upto.drop_last() =~= done);
                assert(upto.last() == tokens@[i as int]@);
            }
            match &tokens[i] {
                Token::Comment => {},
                Token::Other => {},
                Token::Open { name, meta } => {
                    scopes.push(
                        OpenScope { name: name.clone(), meta: meta.clone(), values: Vec::new() },
                    );
                    proof {
                        assert(scopes_view(nodes0, rank0, scopes@) =~= before.push(
                            Scope { name: name@, meta: meta@, entries: Seq::empty() },
                        ));
                    }
                },
                Token::Close => {
                    if scopes.len() <= 1 {
                        proof {
                            assert(advance(before, upto.last()) is None);
                            assert(run_kinds(seq![root_scope()], upto) == Err::<Seq<Scope>, ParseError>(
                                ParseError::UnmatchedEnd { line: (i + 1) as usize },
                            ));
                            lemma_read_error(kinds, i + 1);
                        }
                        return Err(ParseError::UnmatchedEnd { line: i + 1 });
                    }
                    if count >= MAX_STRUCTS {
                        proof {
                            assert(advance(before, upto.last()) is Some);
                            lemma_read_overflow(kinds, i + 1);
                        }
                        return Err(ParseError::TooManyStructs { line: i + 1 });
                    }
                    let inner = scopes.pop().unwrap();
                    let mut outer = scopes.pop().unwrap();
                    let ghost rest = scopes@;
                    let ghost outer0 = outer;
                    let entry_name = inner.name.clone();
                    let node = Stalker2CfgStruct {
                        name: inner.name,
                        meta: inner.meta,
                        values: inner.values,
                    };
                    let ghost r = nodes0.len();
                    let key = arena_insert(&mut arena, node);
                    count += 1;
                    proof {
                        rank@ = rank0.insert(key, r);
                    }
                    outer.values.push(
                        Stalker2CfgValue { name: entry_name, value: None, struct_key: Some(key) },
                    );
                    scopes.push(outer);
                    proof {
                        lemma_close_step(nodes0, rank0, scopes0, key, node, scopes@);
                    }
                },
                Token::Value { name, value } => {
                    let mut top = scopes.pop().unwrap();
                    let ghost top0 = top;
                    top.values.push(
                        Stalker2CfgValue {
                            name: name.clone(),
                            value: Some(value.clone()),
                            struct_key: None,
                        },
                    );
                    scopes.push(top);
                    proof {
                        let entry = Entry::Value { name: name@, value: value@ };
                        assert(list_tree(nodes0, rank0, top.values@) =~= list_tree(
                            nodes0,
                            rank0,
                            top0.values@,
                        ).push(entry)) by {
                            lemma_entries_prefix(
                                nodes0,
                                rank0,
                                top0.values@,
                                top.values@,
                                top_rank(),
                                top0.values@.len(),
                            );
                            assert(top.values@.len() == top0.values@.len() + 1);
                            assert(entry_tree(nodes0, rank0, top.values@.last(), top_rank())
                                == entry);
                        }
                        assert(scopes_view(nodes0, rank0, scopes@) =~= before.drop_last().push(
                            with_entry(before.last(), entry),
                        ));
                        assert forall|j: int| 0 <= j < scopes.len() implies all_supported(
                            nodes0,
                            (#[trigger] scopes[j]).values@,
                        ) by {
                            if j < scopes.len() - 1 {
                                assert(scopes[j] == scopes0[j]);
                            } else {
                                assert(all_supported(nodes0, top0.values@));
                                assert forall|m: int| 0 <= m < top.values@.len() implies supported(
                                    nodes0,
                                    #[trigger] top.values@[m],
                                ) by {
                                    if m < top0.values@.len() {
                                        assert(top.values@[m] == top0.values@[m]);
                                    }
                                }
                            }
                        }
                    }
                },
                Token::StrayBegin => {
                    proof {
                        assert(advance(before, upto.last()) is None);
                        assert(run_kinds(seq![root_scope()], upto) == Err::<Seq<Scope>, ParseError>(
                            ParseError::UnprocessedBegin { line: (i + 1) as usize },
                        ));
                        lemma_read_error(kinds, i + 1);
                    }
                    return Err(ParseError::UnprocessedBegin { line: i + 1 });
                },
                Token::StrayEnd => {
                    proof {
                        assert(advance(before, upto.last()) is None);
                        assert(run_kinds(seq![root_scope()], upto) == Err::<Seq<Scope>, ParseError>(
                            ParseError::UnprocessedEnd { line: (i + 1) as usize },
                        ));
                        lemma_read_error(kinds, i + 1);
                    }
                    return Err(ParseError::UnprocessedEnd { line: i + 1 });
                },
            }
            i += 1;
        }
        proof {
            assert(kinds.take(tokens.len() as int) =~= kinds);
        }
        if scopes.len() > 1 {
            return Err(ParseError::Unclosed { count: scopes.len() - 1 });
        }
        let root = scopes.pop().unwrap();
        Ok(Stalker2Cfg { name, structs: arena, root_values: root.values, rank })
    }
}

/// The lines that the tokens stand for.
pub open spec fn token_views(tokens: Seq<Token>) -> Seq<Line> {
    Seq::new(tokens.len(), |i: int| tokens[i]@)
}

/// An error behind lines of which none closes too many structs is the error
/// of the whole.
pub proof fn lemma_read_error(kinds: Seq<Line>, upto: int)
    requires
        1 <= upto <= kinds.len(),
        overflow_line(kinds.take(upto - 1)) is None,
        run_kinds(seq![root_scope()], kinds.take(upto)) is Err,
    ensures
        read_kinds(kinds) == Err::<Seq<Entry>, ParseError>(
            run_kinds(seq![root_scope()], kinds.take(upto))->Err_0,
        ),
{
    lemma_run_fails(seq![root_scope()], kinds, upto);
    if overflow_line(kinds) is Some {
        let n = overflow_line(kinds)->0 as int;
        lemma_overflow_first(kinds);
        if n < upto {
            assert(kinds.take(upto - 1).take(n) =~= kinds.take(n));
            lemma_overflow_stays(kinds.take(upto - 1), n);
        }
        assert(kinds.take(n).take(upto) =~= kinds.take(upto));
        lemma_run_fails(seq![root_scope()], kinds.take(n), upto);
    }
}

/// The first line that closes one struct too many is the error of the whole.
pub proof fn lemma_read_overflow(kinds: Seq<Line>, upto: int)
    requires
        1 <= upto <= kinds.len(),
        overflow_line(kinds.take(upto - 1)) is None,
        kinds[upto - 1] is Close,
        closed_structs(kinds.take(upto - 1)) >= MAX_STRUCTS,
        run_kinds(seq![root_scope()], kinds.take(upto)) is Ok,
    ensures
        read_kinds(kinds) == Err::<Seq<Entry>, ParseError>(
            ParseError::TooManyStructs { line: upto as usize },
        ),
{
    assert(kinds.take(upto).drop_last() =~= kinds.take(upto - 1));
    assert(kinds.take(upto).last() == kinds[upto - 1]);
    assert(overflow_line(kinds.take(upto)) == Some(upto as nat));
    lemma_overflow_stays(kinds, upto);
}

/// Once a prefix of the lines has failed, the whole fails in the same way.
pub proof fn lemma_run_fails(scopes: Seq<Scope>, lines: Seq<Line>, upto: int)
    requires
        0 <= upto <= lines.len(),
        run_kinds(scopes, lines.take(upto)) is Err,
    ensures
        run_kinds(scopes, lines) == run_kinds(scopes, lines.take(upto)),
    decreases lines.len() - upto,
{
    if upto < lines.len() {
        assert(lines.take(upto + 1).drop_last() =~= lines.take(upto));
        lemma_run_fails(scopes, lines, upto + 1);
    } else {
        assert(lines.take(upto) =~= lines);
    }
}

/// The entries of a list are those of any longer list up to its length.
pub proof fn lemma_entries_prefix(
    nodes: Map<DefaultKey, Stalker2CfgStruct>,
    rank: Map<DefaultKey, nat>,
    short: Seq<Stalker2CfgValue>,
    long: Seq<Stalker2CfgValue>,
    below: nat,
    count: nat,
)
    requires
        short.len() <= long.len(),
        forall|i: int| 0 <= i < short.len() ==> short[i] == long[i],
        count <= short.len(),
    ensures
        entries_tree(nodes, rank, short, below, count) == entries_tree(
            nodes,
            rank,
            long,
            below,
            count,
        ),
    decreases count,
{
    if count > 0 {
        lemma_entries_prefix(nodes, rank, short, long, below, (count - 1) as nat);
    }
}

/// What closing the innermost scope does to the views: the scope becomes a
/// node under a new key, and an entry with that key ends the scope around it.
pub proof fn lemma_close_step(
    nodes: Map<DefaultKey, Stalker2CfgStruct>,
    rank: Map<DefaultKey, nat>,
    scopes: Seq<OpenScope>,
    key: DefaultKey,
    node: Stalker2CfgStruct,
    after: Seq<OpenScope>,
)
    requires
        scopes.len() >= 2,
        well_ranked(nodes, rank),
        nodes.len() < top_rank(),
        forall|j: int| 0 <= j < scopes.len() ==> all_supported(nodes, (#[trigger] scopes[j]).values@),
        !nodes.contains_key(key),
        node.name == scopes.last().name,
        node.meta == scopes.last().meta,
        node.values == scopes.last().values,
        after.len() == scopes.len() - 1,
        forall|j: int| 0 <= j < after.len() - 1 ==> after[j] == scopes[j],
        after.last().name == scopes[scopes.len() - 2].name,
        after.last().meta == scopes[scopes.len() - 2].meta,
        after.last().values@.len() == scopes[scopes.len() - 2].values@.len() + 1,
        forall|m: int|
            0 <= m < scopes[scopes.len() - 2].values@.len() ==> after.last().values@[m]
                == scopes[scopes.len() - 2].values@[m],
        after.last().values@.last().value is None,
        after.last().values@.last().struct_key == Some(key),
    ensures
        well_ranked(nodes.insert(key, node), rank.insert(key, nodes.len())),
        forall|j: int|
            0 <= j < after.len() ==> all_supported(
                nodes.insert(key, node),
                (#[trigger] after[j]).values@,
            ),
        advance(scopes_view(nodes, rank, scopes), Line::Close) == Some(
            scopes_view(nodes.insert(key, node), rank.insert(key, nodes.len()), after),
        ),
        nodes.insert(key, node).len() == nodes.len() + 1,
{
    let nodes2 = nodes.insert(key, node);
    let r = nodes.len();
    let rank2 = rank.insert(key, r);
    let before = scopes_view(nodes, rank, scopes);
    let n = scopes.len() as int;
    assert(all_supported(nodes, scopes[n - 1].values@));
    assert(all_supported(nodes, scopes[n - 2].values@));
    // the arena stays well ranked
    assert(well_ranked(nodes2, rank2)) by {
        assert forall|k: DefaultKey| #[trigger] nodes2.contains_key(k) implies all_supported(
            nodes2,
            nodes2[k].values@,
        ) by {
            if k == key {
                assert forall|m: int| 0 <= m < node.values@.len() implies supported(
                    nodes2,
                    #[trigger] node.values@[m],
                ) by {
                    assert(supported(nodes, scopes[n - 1].values@[m]));
                }
            } else {
                assert(all_supported(nodes, nodes[k].values@));
                assert forall|m: int| 0 <= m < nodes[k].values@.len() implies supported(
                    nodes2,
                    #[trigger] nodes2[k].values@[m],
                ) by {
                    assert(supported(nodes, nodes[k].values@[m]));
                }
            }
        }
        assert forall|k: DefaultKey, m: int|
            nodes2.contains_key(k) && 0 <= m < nodes2[k].values.len() && (
            #[trigger] nodes2[k].values[m]).value is None implies rank2[nodes2[k].values[m].struct_key->0]
            < rank2[k] by {
            if k == key {
                assert(supported(nodes, scopes[n - 1].values@[m]));
                let c = node.values[m].struct_key->0;
                assert(nodes.contains_key(c));
            } else {
                assert(all_supported(nodes, nodes[k].values@));
                assert(supported(nodes, nodes[k].values@[m]));
            }
        }
    }
    // the scopes that stay open are supported
    assert forall|j: int| 0 <= j < after.len() implies all_supported(
        nodes2,
        (#[trigger] after[j]).values@,
    ) by {
        assert forall|m: int| 0 <= m < after[j].values@.len() implies supported(
            nodes2,
            #[trigger] after[j].values@[m],
        ) by {
            if j < after.len() - 1 {
                assert(all_supported(nodes, scopes[j].values@));
                assert(supported(nodes, scopes[j].values@[m]));
            } else if m < scopes[n - 2].values@.len() {
                assert(supported(nodes, scopes[n - 2].values@[m]));
            }
        }
    }
    // the views
    let entry = Entry::Struct {
        name: node.name@,
        meta: node.meta@,
        entries: list_tree(nodes, rank, node.values@),
    };
    let last = after.last().values@.last();
    assert(entry_tree(nodes2, rank2, last, top_rank()) == entry) by {
        lemma_entries_frame(nodes, rank, key, node, r, node.values@, r, node.values@.len());
        assert forall|m: int|
            0 <= m < node.values@.len() && (#[trigger] node.values@[m]).value is None
                && node.values@[m].struct_key is Some implies rank[node.values@[m].struct_key->0]
            < r && rank[node.values@[m].struct_key->0] < top_rank() by {
            assert(supported(nodes, scopes[n - 1].values@[m]));
        }
        lemma_entries_bound(nodes, rank, node.values@, r, top_rank(), node.values@.len());
    }
    let outer_old = scopes[n - 2].values@;
    let outer_new = after.last().values@;
    assert(list_tree(nodes2, rank2, outer_new) == list_tree(nodes, rank, outer_old).push(entry)) by {
        lemma_entries_prefix(nodes2, rank2, outer_old, outer_new, top_rank(), outer_old.len());
        lemma_entries_frame(nodes, rank, key, node, r, outer_old, top_rank(), outer_old.len());
    }
    let want = before.drop_last().drop_last().push(with_entry(before[n - 2], entry));
    let got = scopes_view(nodes2, rank2, after);
    assert(got.len() == want.len());
    assert forall|j: int| 0 <= j < got.len() implies got[j] == want[j] by {
        if j < after.len() - 1 {
            assert(after[j] == scopes[j]);
            assert(all_supported(nodes, scopes[j].values@));
            lemma_entries_frame(
                nodes,
                rank,
                key,
                node,
                r,
                scopes[j].values@,
                top_rank(),
                scopes[j].values@.len(),
            );
        }
    }
    assert(got =~= want);
}

/// The struct that a node is, with the entries of its subtree.
pub open spec fn node_entry(
    nodes: Map<DefaultKey, Stalker2CfgStruct>,
    rank: Map<DefaultKey, nat>,
    key: DefaultKey,
) -> Entry {
    Entry::Struct {
        name: nodes[key].name@,
        meta: nodes[key].meta@,
        entries: entries_tree(nodes, rank, nodes[key].values@, rank[key], nodes[key].values@.len()),
    }
}

/// The entries of a list, one for each value and in their order.
pub proof fn lemma_entries_index(
    nodes: Map<DefaultKey, Stalker2CfgStruct>,
    rank: Map<DefaultKey, nat>,
    values: Seq<Stalker2CfgValue>,
    below: nat,
    count: nat,
)
    requires
        count <= values.len(),
    ensures
        entries_tree(nodes, rank, values, below, count).len() == count,
        forall|i: int|
            0 <= i < count ==> #[trigger] entries_tree(nodes, rank, values, below, count)[i]
                == entry_tree(nodes, rank, values[i], below),
    decreases count,
{
    if count > 0 {
        lemma_entries_index(nodes, rank, values, below, (count - 1) as nat);
    }
}

/// The lines of the first `count` entries do not depend on what follows.
pub proof fn lemma_render_step(entries: Seq<Entry>, depth: nat, count: nat)
    requires
        count < entries.len(),
    ensures
        join_lines(render_entries(entries, depth, count + 1)) == join_lines(
            render_entries(entries, depth, count),
        ) + join_lines(render_entry(entries[count as int], depth)),
{
    lemma_join_lines_concat(
        render_entries(entries, depth, count),
        render_entry(entries[count as int], depth),
    );
}

/// The text of a struct: its opening line, the text of its entries, and its
/// closing line.
pub proof fn lemma_render_struct(name: Seq<char>, meta: Seq<char>, entries: Seq<Entry>, depth: nat)
    ensures
        join_lines(render_entry(Entry::Struct { name, meta, entries }, depth)) == open_line(
            depth,
            name,
            meta,
        ) + seq!['\n'] + join_lines(render_entries(entries, depth + 1, entries.len()))
            + close_line(depth) + seq!['\n'],
{
    let body = render_entries(entries, depth + 1, entries.len());
    lemma_join_lines_concat(seq![open_line(depth, name, meta)] + body, seq![close_line(depth)]);
    lemma_join_lines_concat(seq![open_line(depth, name, meta)], body);
    lemma_join_lines_one(open_line(depth, name, meta));
    lemma_join_lines_one(close_line(depth));
}

/// Appends the indentation of a line at `depth`.
fn write_indent(out: &mut Vec<char>, depth: u64)
    requires
        depth < 0x1_0000_0000,
    ensures
        final(out)@ == old(out)@ + spaces(3 * depth as nat),
{
    let ghost before = out@;
    let width: u64 = 3 * depth;
    let mut i: u64 = 0;
    assert(before + spaces(0) =~= before);
    while i < width
        invariant
            i <= width,
            out@ == before + spaces(i as nat),
        decreases width - i,
    {
        out.push(' ');
        assert(before + spaces(i as nat + 1) =~= (before + spaces(i as nat)).push(' '));
        i += 1;
    }
}

/// Appends the line of a value and its line feed.
pub(crate) fn write_value_line(out: &mut Vec<char>, depth: u64, name: &str, value: &str)
    requires
        depth < 0x1_0000_0000,
    ensures
        final(out)@ == old(out)@ + value_line(depth as nat, name@, value@) + seq!['\n'],
{
    let ghost before = out@;
    write_indent(out, depth);
    push_str(out, name);
    push_str(out, " = ");
    push_str(out, value);
    out.push('\n');
    proof {
        reveal_strlit(" = ");
        assert(" = "@ =~= seq![' ', '=', ' ']);
        assert(out@ =~= before + value_line(depth as nat, name@, value@) + seq!['\n']);
    }
}

/// Appends the line that opens a struct and its line feed.
pub(crate) fn write_open_line(out: &mut Vec<char>, depth: u64, name: &str, meta: &str)
    requires
        depth < 0x1_0000_0000,
    ensures
        final(out)@ == old(out)@ + open_line(depth as nat, name@, meta@) + seq!['\n'],
{
    let ghost before = out@;
    write_indent(out, depth);
    push_str(out, name);
    push_str(out, " : struct.begin");
    push_str(out, meta);
    out.push('\n');
    proof {
        reveal_strlit(" : struct.begin");
        reveal_strlit("struct.begin");
        assert(" : struct.begin"@ =~= seq![' ', ':', ' '] + begin_word());
        assert(out@ =~= before + open_line(depth as nat, name@, meta@) + seq!['\n']);
    }
}

/// Appends the line that closes a struct and its line feed.
fn write_close_line(out: &mut Vec<char>, depth: u64)
    requires
        depth < 0x1_0000_0000,
    ensures
        final(out)@ == old(out)@ + close_line(depth as nat) + seq!['\n'],
{
    let ghost before = out@;
    write_indent(out, depth);
    push_str(out, "struct.end");
    out.push('\n');
    assert(out@ =~= before + close_line(depth as nat) + seq!['\n']);
}

impl Stalker2Cfg {
    /// Appends the text of the struct under `key`, indented for `depth`.
    fn write_struct(&self, key: DefaultKey, depth: u64, out: &mut Vec<char>)
        requires
            self.wf(),
            arena_nodes(self.structs).contains_key(key),
            depth + self.rank@[key] < top_rank(),
        ensures
            final(out)@ == old(out)@ + join_lines(
                render_entry(node_entry(arena_nodes(self.structs), self.rank@, key), depth as nat),
            ),
        decreases self.rank@[key],
    {
        let ghost nodes = arena_nodes(self.structs);
        let ghost rank = self.rank@;
        let ghost before = out@;
        let node = arena_get(&self.structs, key).unwrap();
        let ghost below = rank[key];
        let ghost entries = entries_tree(nodes, rank, node.values@, below, node.values@.len());
        write_open_line(out, depth, node.name.as_str(), node.meta.as_str());
        let ghost opened = out@;
        proof {
            lemma_entries_index(nodes, rank, node.values@, below, node.values@.len());
            assert(opened + join_lines(render_entries(entries, depth as nat + 1, 0)) =~= opened);
        }
        let mut i: usize = 0;
        while i < node.values.len()
            invariant
                i <= node.values.len(),
                self.wf(),
                nodes == arena_nodes(self.structs),
                rank == self.rank@,
                nodes.contains_key(key),
                *node == nodes[key],
                below == rank[key],
                depth + below < top_rank(),
                entries == entries_tree(nodes, rank, node.values@, below, node.values@.len()),
                entries.len() == node.values@.len(),
                forall|j: int|
                    0 <= j < entries.len() ==> #[trigger] entries[j] == entry_tree(
                        nodes,
                        rank,
                        node.values@[j],
                        below,
                    ),
                out@ == opened + join_lines(render_entries(entries, depth as nat + 1, i as nat)),
            decreases node.values.len() - i,
        {
            let v = &node.values[i];
            let ghost sofar = out@;
            proof {
                lemma_render_step(entries, depth as nat + 1, i as nat);
                assert(all_supported(nodes, nodes[key].values@));
                assert(supported(nodes, node.values@[i as int]));
                assert(entries[i as int] == entry_tree(nodes, rank, node.values@[i as int], below));
            }
            match &v.value {
                Some(text) => {
                    write_value_line(out, depth + 1, v.name.as_str(), text.as_str());
                    proof {
                        lemma_join_lines_one(value_line(depth as nat + 1, v.name@, text@));
                    }
                },
                None => {
                    match v.struct_key {
                        Some(child) => {
                            assert(rank[child] < rank[key]);
                            self.write_struct(child, depth + 1, out);
                            assert(entries[i as int] == node_entry(nodes, rank, child));
                        },
                        None => {
                            assert(false);
                        },
                    }
                },
            }
            assert(out@ =~= opened + join_lines(
                render_entries(entries, depth as nat + 1, i as nat + 1),
            ));
            i += 1;
        }
        write_close_line(out, depth);
        proof {
            lemma_render_struct(node.name@, node.meta@, entries, depth as nat);
            assert(out@ =~= before + join_lines(
                render_entry(node_entry(nodes, rank, key), depth as nat),
            ));
        }
    }

    /// The text of the document: one line for each value, two lines around
    /// the entries of each struct, three spaces of indentation for each level
    /// of nesting.
    pub fn to_string(&self) -> (text: String)
        requires
            self.wf(),
        ensures
            text@ == render_text(self@),
    {
        let ghost nodes = arena_nodes(self.structs);
        let ghost rank = self.rank@;
        let ghost entries = self@;
        let mut out: Vec<char> = Vec::new();
        proof {
            lemma_entries_index(nodes, rank, self.root_values@, top_rank(), self.root_values@.len());
            assert(out@ =~= join_lines(render_entries(entries, 0, 0)));
        }
        let mut i: usize = 0;
        while i < self.root_values.len()
            invariant
                i <= self.root_values.len(),
                self.wf(),
                nodes == arena_nodes(self.structs),
                rank == self.rank@,
                entries == self@,
                entries.len() == self.root_values@.len(),
                forall|j: int|
                    0 <= j < entries.len() ==> #[trigger] entries[j] == entry_tree(
                        nodes,
                        rank,
                        self.root_values@[j],
                        top_rank(),
                    ),
                out@ == join_lines(render_entries(entries, 0, i as nat)),
            decreases self.root_values.len() - i,
        {
            let v = &self.root_values[i];
            proof {
                lemma_render_step(entries, 0, i as nat);
                assert(supported(nodes, self.root_values@[i as int]));
                assert(entries[i as int] == entry_tree(
                    nodes,
                    rank,
                    self.root_values@[i as int],
                    top_rank(),
                ));
            }
            match &v.value {
                Some(text) => {
                    write_value_line(&mut out, 0, v.name.as_str(), text.as_str());
                    proof {
                        lemma_join_lines_one(value_line(0, v.name@, text@));
                    }
                },
                None => {
                    match v.struct_key {
                        Some(child) => {
                            self.write_struct(child, 0, &mut out);
                            assert(entries[i as int] == node_entry(nodes, rank, child));
                        },
                        None => {
                            assert(false);
                        },
                    }
                },
            }
            assert(out@ =~= join_lines(render_entries(entries, 0, i as nat + 1)));
            i += 1;
        }
        string_of(&out)
    }
}

/// Every struct among the values is a node with a rank under `below`.
pub open spec fn all_below(
    nodes: Map<DefaultKey, Stalker2CfgStruct>,
    rank: Map<DefaultKey, nat>,
    values: Seq<Stalker2CfgValue>,
    below: nat,
) -> bool {
    forall|i: int|
        0 <= i < values.len() ==> (#[trigger] values[i]).value is Some || (values[i].struct_key
            is Some && nodes.contains_key(values[i].struct_key->0) && rank[values[i].struct_key->0]
            < below)
}

/// The lines of the first `count` entries depend on those entries only.
pub proof fn lemma_render_prefix(a: Seq<Entry>, b: Seq<Entry>, depth: nat, count: nat)
    requires
        count <= a.len(),
        count <= b.len(),
        forall|i: int| 0 <= i < count ==> a[i] == b[i],
    ensures
        render_entries(a, depth, count) == render_entries(b, depth, count),
    decreases count,
{
    if count > 0 {
        lemma_render_prefix(a, b, depth, (count - 1) as nat);
    }
}

/// The document that a JSON value stands for: its entries are written out
/// and read again, so that they are such as a text gives them.
pub open spec fn document_of(value: Json) -> Result<(Seq<char>, Seq<Entry>), MergeError> {
    match raise_doc(value) {
        Ok((name, entries)) => match read_text(render_text(entries)) {
            Ok(read) => Ok((name, read)),
            Err(ParseError::TooManyStructs { .. }) => Err(MergeError::TooLarge),
            Err(_) => Err(MergeError::Shape),
        },
        Err(e) => Err(e),
    }
}

/// The merge of three documents: their JSON values are merged, and the
/// result is read as a document.
pub open spec fn merged_cfg(
    base: (Seq<char>, Seq<Entry>),
    ours: (Seq<char>, Seq<Entry>),
    theirs: (Seq<char>, Seq<Entry>),
) -> Result<(Seq<char>, Seq<Entry>), MergeError> {
    match merged_json(
        lower_doc(base.0, base.1),
        lower_doc(ours.0, ours.1),
        lower_doc(theirs.0, theirs.1),
    ) {
        Ok(merged) => document_of(merged),
        Err(e) => Err(e),
    }
}

/// Writes the text of the entries that the JSON values stand for.
fn write_raised(items: &Vec<Value>, depth: u64, out: &mut Vec<char>) -> (done: Result<
    (),
    MergeError,
>)
    requires
        depth <= 0xFFFF_FFFF,
    ensures
        match done {
            Ok(_) => {
                let raised = raise_entries(
                    models(items@),
                    items@.len(),
                    (max_nesting() - depth) as nat,
                );
                raised is Ok && final(out)@ == old(out)@ + join_lines(
                    render_entries(raised->Ok_0, depth as nat, raised->Ok_0.len()),
                )
            },
            Err(e) => raise_entries(models(items@), items@.len(), (max_nesting() - depth) as nat)
                == Err::<Seq<Entry>, MergeError>(e),
        },
    decreases models(items@),
{
    let ghost ms = models(items@);
    let ghost room = (max_nesting() - depth) as nat;
    let ghost start = out@;
    let ghost mut sofar: Seq<Entry> = Seq::empty();
    let mut i: usize = 0;
    assert(start + join_lines(render_entries(sofar, depth as nat, 0)) =~= start);
    while i < items.len()
        invariant
            i <= items.len(),
            depth <= 0xFFFF_FFFF,
            ms == models(items@),
            room == (max_nesting() - depth) as nat,
            raise_entries(ms, i as nat, room) == Ok::<Seq<Entry>, MergeError>(sofar),
            sofar.len() == i,
            out@ == start + join_lines(render_entries(sofar, depth as nat, i as nat)),
        decreases items.len() - i,
    {
        let item = &items[i];
        let ghost m = json_model(*item);
        let ghost before = out@;
        assert(ms[i as int] == m);
        proof {
            assert(raise_entries(ms, (i + 1) as nat, room) == match raise_entry(m, room) {
                Ok(entry) => Ok::<Seq<Entry>, MergeError>(sofar.push(entry)),
                Err(e) => Err::<Seq<Entry>, MergeError>(e),
            });
        }
        let name = match json_get(item, "name") {
            Some(member) => match json_as_str(member) {
                Some(text) => text,
                None => {
                    proof {
                        lemma_raise_fails(ms, (i + 1) as nat, items@.len(), room);
                    }
                    return Err(MergeError::Shape);
                },
            },
            None => {
                proof {
                    lemma_raise_fails(ms, (i + 1) as nat, items@.len(), room);
                }
                return Err(MergeError::Shape);
            },
        };
        let mut leaf: Option<&str> = None;
        match json_get(item, "value") {
            Some(member) => {
                leaf = json_as_str(member);
            },
            None => {},
        }
        let ghost entry: Entry;
        match leaf {
            Some(text) => {
                write_value_line(out, depth, name, text);
                proof {
                    entry = Entry::Value { name: name@, value: text@ };
                    lemma_join_lines_one(value_line(depth as nat, name@, text@));
                }
            },
            None => {
                let meta = match json_get(item, "meta") {
                    Some(member) => json_as_str(member),
                    None => None,
                };
                let children = match json_get(item, "values") {
                    Some(member) => json_as_array(member),
                    None => None,
                };
                match (meta, children) {
                    (Some(meta), Some(children)) => {
                        if depth == 0xFFFF_FFFF {
                            proof {
                                lemma_raise_fails(ms, (i + 1) as nat, items@.len(), room);
                            }
                            return Err(MergeError::TooLarge);
                        }
                        write_open_line(out, depth, name, meta);
                        match write_raised(children, depth + 1, out) {
                            Ok(_) => {},
                            Err(e) => {
                                proof {
                                    lemma_raise_fails(ms, (i + 1) as nat, items@.len(), room);
                                }
                                return Err(e);
                            },
                        }
                        write_close_line(out, depth);
                        proof {
                            let inner = raise_entries(
                                models(children@),
                                children@.len(),
                                (room - 1) as nat,
                            )->Ok_0;
                            lemma_raise_len(models(children@), children@.len(), (room - 1) as nat);
                            entry = Entry::Struct { name: name@, meta: meta@, entries: inner };
                            lemma_render_struct(name@, meta@, inner, depth as nat);
                        }
                    },
                    _ => {
                        proof {
                            lemma_raise_fails(ms, (i + 1) as nat, items@.len(), room);
                        }
                        return Err(MergeError::Shape);
                    },
                }
            },
        }
        proof {
            assert(raise_entry(m, room) == Ok::<Entry, MergeError>(entry));
            let next = sofar.push(entry);
            lemma_render_prefix(sofar, next, depth as nat, i as nat);
            lemma_join_lines_concat(
                render_entries(next, depth as nat, i as nat),
                render_entry(entry, depth as nat),
            );
            assert(out@ =~= start + join_lines(render_entries(next, depth as nat, i as nat + 1)));
            sofar = next;
        }
        i += 1;
    }
    Ok(())
}

/// Once the first values fail to stand for entries, so do all.
pub proof fn lemma_raise_fails(values: Seq<Json>, upto: nat, count: nat, room: nat)
    requires
        upto <= count <= values.len(),
        raise_entries(values, upto, room) is Err,
    ensures
        raise_entries(values, count, room) == raise_entries(values, upto, room),
    decreases count - upto,
{
    if upto < count {
        lemma_raise_fails(values, upto, (count - 1) as nat, room);
    }
}

/// As many entries as values.
pub proof fn lemma_raise_len(values: Seq<Json>, count: nat, room: nat)
    requires
        count <= values.len(),
        raise_entries(values, count, room) is Ok,
    ensures
        raise_entries(values, count, room)->Ok_0.len() == count,
    decreases count,
{
    if count > 0 {
        lemma_raise_len(values, (count - 1) as nat, room);
    }
}

impl Stalker2Cfg {
    /// The JSON values of the entries of a list.
    fn lower_values(&self, values: &Vec<Stalker2CfgValue>, Ghost(below): Ghost<nat>) -> (items: Vec<
        Value,
    >)
        requires
            self.wf(),
            all_below(arena_nodes(self.structs), self.rank@, values@, below),
        ensures
            models(items@) == lower_entries(
                entries_tree(arena_nodes(self.structs), self.rank@, values@, below, values@.len()),
                values@.len(),
            ),
        decreases below,
    {
        let ghost nodes = arena_nodes(self.structs);
        let ghost rank = self.rank@;
        let ghost entries = entries_tree(nodes, rank, values@, below, values@.len());
        let mut items: Vec<Value> = Vec::new();
        proof {
            lemma_entries_index(nodes, rank, values@, below, values@.len());
            assert(models(items@) =~= lower_entries(entries, 0));
        }
        let mut i: usize = 0;
        while i < values.len()
            invariant
                i <= values.len(),
                self.wf(),
                nodes == arena_nodes(self.structs),
                rank == self.rank@,
                all_below(nodes, rank, values@, below),
                entries == entries_tree(nodes, rank, values@, below, values@.len()),
                entries.len() == values@.len(),
                forall|j: int|
                    0 <= j < entries.len() ==> #[trigger] entries[j] == entry_tree(
                        nodes,
                        rank,
                        values@[j],
                        below,
                    ),
                models(items@) == lower_entries(entries, i as nat),
            decreases values.len() - i,
        {
            let v = &values[i];
            let ghost held = models(items@);
            proof {
                assert(entries[i as int] == entry_tree(nodes, rank, values@[i as int], below));
                assert(values@[i as int].value is Some || (values@[i as int].struct_key is Some
                    && nodes.contains_key(values@[i as int].struct_key->0)
                    && rank[values@[i as int].struct_key->0] < below));
            }
            let item = match &v.value {
                Some(text) => json_object2(
                    "name",
                    json_string(v.name.as_str()),
                    "value",
                    json_string(text.as_str()),
                ),
                None => {
                    let key = v.struct_key.unwrap();
                    let node = arena_get(&self.structs, key).unwrap();
                    proof {
                        assert(all_supported(nodes, nodes[key].values@));
                        assert forall|j: int| 0 <= j < node.values@.len() implies (
                        #[trigger] node.values@[j]).value is Some || (node.values@[j].struct_key
                            is Some && nodes.contains_key(node.values@[j].struct_key->0)
                            && rank[node.values@[j].struct_key->0] < rank[key]) by {
                            assert(supported(nodes, nodes[key].values@[j]));
                        }
                    }
                    let children = self.lower_values(&node.values, Ghost(rank[key]));
                    proof {
                        lemma_entries_index(
                            nodes,
                            rank,
                            node.values@,
                            rank[key],
                            node.values@.len(),
                        );
                    }
                    json_object3(
                        "name",
                        json_string(node.name.as_str()),
                        "meta",
                        json_string(node.meta.as_str()),
                        "values",
                        json_array(children),
                    )
                },
            };
            assert(json_model(item) == lower_entry(entries[i as int]));
            items.push(item);
            assert(models(items@) =~= held.push(json_model(item)));
            i += 1;
        }
        items
    }

    /// The document as a JSON value.
    pub fn to_json(&self) -> (value: Value)
        requires
            self.wf(),
        ensures
            json_model(value) == lower_doc(self.spec_name(), self@),
    {
        proof {
            assert forall|i: int| 0 <= i < self.root_values@.len() implies (
            #[trigger] self.root_values@[i]).value is Some || (self.root_values@[i].struct_key
                is Some && arena_nodes(self.structs).contains_key(
                self.root_values@[i].struct_key->0,
            ) && self.rank@[self.root_values@[i].struct_key->0] < top_rank()) by {
                assert(supported(arena_nodes(self.structs), self.root_values@[i]));
            }
        }
        let items = self.lower_values(&self.root_values, Ghost(top_rank()));
        proof {
            lemma_entries_index(
                arena_nodes(self.structs),
                self.rank@,
                self.root_values@,
                top_rank(),
                self.root_values@.len(),
            );
        }
        json_object2("name", json_string(self.name.as_str()), "root_values", json_array(items))
    }

    /// Reads a document from a JSON value. The entries are written out as
    /// text and read again.
    pub fn from_json(value: &Value) -> (result: Result<Stalker2Cfg, MergeError>)
        ensures
            match result {
                Ok(doc) => doc.wf() && document_of(json_model(*value)) == Ok::<
                    (Seq<char>, Seq<Entry>),
                    MergeError,
                >((doc.spec_name(), doc@)),
                Err(e) => document_of(json_model(*value)) == Err::<
                    (Seq<char>, Seq<Entry>),
                    MergeError,
                >(e),
            },
    {
        let name = match json_get(value, "name") {
            Some(member) => match json_as_str(member) {
                Some(text) => text,
                None => {
                    return Err(MergeError::Shape);
                },
            },
            None => {
                return Err(MergeError::Shape);
            },
        };
        let items = match json_get(value, "root_values") {
            Some(member) => match json_as_array(member) {
                Some(items) => items,
                None => {
                    return Err(MergeError::Shape);
                },
            },
            None => {
                return Err(MergeError::Shape);
            },
        };
        let mut out: Vec<char> = Vec::new();
        match write_raised(items, 0, &mut out) {
            Ok(_) => {},
            Err(e) => {
                return Err(e);
            },
        }
        proof {
            lemma_raise_len(models(items@), items@.len(), max_nesting());
        }
        let text = string_of(&out);
        match Stalker2Cfg::from_str(name.to_owned(), text.as_str()) {
            Ok(doc) => Ok(doc),
            Err(ParseError::TooManyStructs { .. }) => Err(MergeError::TooLarge),
            Err(_) => Err(MergeError::Shape),
        }
    }
}

/// Merges what `our` and `their` documents changed against `base`: on a
/// collision theirs wins.
pub fn merge_cfg_structs(base: &Stalker2Cfg, our: &Stalker2Cfg, their: &Stalker2Cfg) -> (result:
    Result<Stalker2Cfg, MergeError>)
    requires
        base.wf(),
        our.wf(),
        their.wf(),
    ensures
        match result {
            Ok(doc) => doc.wf() && merged_cfg(
                (base.spec_name(), base@),
                (our.spec_name(), our@),
                (their.spec_name(), their@),
            ) == Ok::<(Seq<char>, Seq<Entry>), MergeError>((doc.spec_name(), doc@)),
            Err(e) => merged_cfg(
                (base.spec_name(), base@),
                (our.spec_name(), our@),
                (their.spec_name(), their@),
            ) == Err::<(Seq<char>, Seq<Entry>), MergeError>(e),
        },
{
    let base_json = base.to_json();
    let our_json = our.to_json();
    let their_json = their.to_json();
    match merge_json_values(base_json, &our_json, &their_json) {
        Ok(merged) => Stalker2Cfg::from_json(&merged),
        Err(e) => Err(e),
    }
}

} // verus!
