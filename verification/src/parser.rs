//! The parser: validation, normalization, tokenization and the
//! recursive-descent tree builder, each verified against the models in
//! [`crate::sanitize`], [`crate::tokens`] and [`crate::builder`].

use crate::builder::{
    branch_model, build_rec, clip_used, elems_view, is_close_tok, lemma_build_used,
    lemma_parse_output_wf, wf_elements,
};
use crate::element::{elem_model, ElemModel, Element, ElementType};
use crate::error::Error;
use crate::sanitize::{is_valid, sanitize, sanitize_spec, valid_input};
use crate::subscript::{branch_count, subscript_model, subscripted_model};
use crate::text::{dec_of, first_space, trim_str, unescape_spaces};
use crate::tokens::{
    lemma_next_token_long_advance, lemma_token_list_step, next_token_spec, token_list, token_scan,
    trim_spec,
};
use vstd::prelude::*;

verus! {

/// The views of a sequence of label strings, in order.
pub open spec fn labels_of(v: Seq<String>) -> Seq<Seq<char>> {
    Seq::new(v.len(), |i: int| v[i]@)
}

/// Parses a phrase into leaves and nodes and keeps the result as an
/// ordered collection of elements.
pub struct Parser {
    /// The sanitized text being parsed.
    data: String,
    /// The id handed to the next element.
    id: usize,
    /// The labels seen so far, each once.
    node_types: Vec<String>,
    /// The cursor into `data`.
    pos: usize,
    /// The elements built so far.
    result: Vec<Element>,
}

impl Parser {
    /// The sanitized text held by the parser.
    pub closed spec fn data_spec(&self) -> Seq<char> {
        self.data@
    }

    /// The cursor into the text.
    pub closed spec fn pos_spec(&self) -> int {
        self.pos as int
    }

    /// The id the next element will get.
    pub closed spec fn next_id_spec(&self) -> int {
        self.id as int
    }

    /// The models of the elements built so far.
    pub closed spec fn results_spec(&self) -> Seq<ElemModel> {
        elems_view(self.result@)
    }

    /// The distinct trimmed labels registered so far, in first-seen
    /// order.
    pub closed spec fn labels_spec(&self) -> Seq<Seq<char>> {
        labels_of(self.node_types@)
    }

    /// Internal validity: ids count the elements built, the cursor
    /// stays inside the text, and registered labels are distinct.
    pub closed spec fn wf(&self) -> bool {
        &&& self.id as int == self.result@.len() + 1
        &&& self.id as int <= self.pos as int + 1
        &&& ((self.pos as int) < self.data@.len() || self.pos == 0)
        &&& forall|i: int, j: int|
            0 <= i < j < self.labels_spec().len() ==> self.labels_spec()[i]
                != self.labels_spec()[j]
    }

    /// Validate and normalize raw text, yielding a parser ready to run,
    /// or the parse error exactly when the text is unacceptable.
    pub fn new(data: String) -> (r: Result<Parser, Error>)
        ensures
            r is Ok <==> valid_input(data@),
            r matches Ok(p) ==> {
                &&& p.wf()
                &&& p.data_spec() == sanitize_spec(data@)
                &&& p.pos_spec() == 0
                &&& p.next_id_spec() == 1
                &&& p.results_spec() == Seq::<ElemModel>::empty()
                &&& p.labels_spec() == Seq::<Seq<char>>::empty()
            },
            r matches Err(e) ==> e matches Error::Parse(m) && m@ == "invalid data provided to parser"@,
    {
        if !is_valid(data.as_str()) {
            return Err(Error::Parse("invalid data provided to parser".to_owned()));
        }
        let cleaned = sanitize(data.as_str());
        let p = Parser { data: cleaned, id: 1, node_types: Vec::new(), pos: 0, result: Vec::new() };
        proof {
            assert(p.results_spec() =~= Seq::<ElemModel>::empty());
            assert(p.labels_spec() =~= Seq::<Seq<char>>::empty());
        }
        Ok(p)
    }

    /// Register a label: its trimmed text joins the label list unless it
    /// is already there.
    fn count_node(&mut self, name: String)
        requires
            old(self).wf(),
        ensures
            final(self).wf(),
            final(self).data_spec() == old(self).data_spec(),
            final(self).pos_spec() == old(self).pos_spec(),
            final(self).next_id_spec() == old(self).next_id_spec(),
            final(self).results_spec() == old(self).results_spec(),
            final(self).labels_spec() == if old(self).labels_spec().contains(trim_spec(name@)) {
                old(self).labels_spec()
            } else {
                old(self).labels_spec().push(trim_spec(name@))
            },
    {
        let trimmed = trim_str(name.as_str());
        let n = self.node_types.len();
        let mut i: usize = 0;
        while i < n
            invariant
                old(self).wf(),
                self == old(self),
                n == self.node_types@.len(),
                i <= n,
                trimmed@ == trim_spec(name@),
                forall|j: int| 0 <= j < i ==> self.labels_spec()[j] != trimmed@,
            decreases n - i,
        {
            if self.node_types[i] == trimmed {
                proof {
                    assert(self.labels_spec()[i as int] == trimmed@);
                    assert(old(self).labels_spec().contains(trim_spec(name@)));
                }
                return;
            }
            i += 1;
        }
        proof {
            assert forall|j: int| 0 <= j < self.labels_spec().len() implies self.labels_spec()[j]
                != trimmed@ by {}
            assert(!old(self).labels_spec().contains(trim_spec(name@)));
        }
        let ghost labels0 = self.labels_spec();
        self.node_types.push(trimmed);
        proof {
            assert(self.labels_spec() =~= labels0.push(trim_spec(name@)));
        }
    }

    /// Draw the next token from the text: the scan of
    /// [`crate::tokens::next_token_spec`], advancing the cursor the same
    /// way.
    pub fn next_token(&mut self) -> (r: String)
        requires
            old(self).wf(),
        ensures
            final(self).wf(),
            final(self).data_spec() == old(self).data_spec(),
            final(self).next_id_spec() == old(self).next_id_spec(),
            final(self).results_spec() == old(self).results_spec(),
            final(self).labels_spec() == old(self).labels_spec(),
            r@ == next_token_spec(old(self).data_spec(), old(self).pos_spec()).0,
            final(self).pos_spec() == next_token_spec(old(self).data_spec(), old(self).pos_spec()).1,
            final(self).pos_spec() >= old(self).pos_spec(),
    {
        let n = self.data.as_str().unicode_len();
        if self.pos + 1 >= n {
            return String::new();
        }
        let ghost s = self.data@;
        let ghost p0 = self.pos as int;
        let mut tokbuf = String::new();
        let mut cnt: usize = 0;
        let mut esc = false;
        let mut done = false;
        while !done && self.pos + cnt < n
            invariant
                old(self).wf(),
                self == old(self),
                n == s.len(),
                s == self.data@,
                p0 == self.pos as int,
                p0 + 1 < n,
                cnt as int <= n - p0,
                !done ==> token_scan(s, p0, cnt as int, tokbuf@, esc) == token_scan(
                    s,
                    p0,
                    0,
                    Seq::empty(),
                    false,
                ),
                done ==> (tokbuf@, cnt as int) == token_scan(s, p0, 0, Seq::empty(), false),
            decreases n - p0 - cnt,
        {
            let c = self.data.as_str().get_char(self.pos + cnt);
            let ghost tb0 = tokbuf@;
            let ghost esc0 = esc;
            if c == '[' {
                if esc {
                    append_char(&mut tokbuf, self.data.as_str(), self.pos + cnt);
                    esc = false;
                } else if cnt > 0 {
                    done = true;
                } else {
                    append_char(&mut tokbuf, self.data.as_str(), self.pos + cnt);
                }
            } else if c == ']' {
                if esc {
                    append_char(&mut tokbuf, self.data.as_str(), self.pos + cnt);
                    esc = false;
                } else {
                    if cnt == 0 {
                        append_char(&mut tokbuf, self.data.as_str(), self.pos + cnt);
                    }
                    done = true;
                }
            } else if c == '\\' {
                esc = true;
            } else if c == '\n' || c == '\r' {
            } else {
                append_char(&mut tokbuf, self.data.as_str(), self.pos + cnt);
                esc = false;
            }
            proof {
                let cc = cnt as int;
                let c0 = s[p0 + cc];
                assert(tb0.push(c0) =~= tb0 + seq![c0]);
                if !done {
                    assert(token_scan(s, p0, cc, tb0, esc0) == token_scan(
                        s,
                        p0,
                        cc + 1,
                        tokbuf@,
                        esc,
                    ));
                } else {
                    assert(token_scan(s, p0, cc, tb0, esc0) == (tokbuf@, cc + 1));
                }
            }
            cnt += 1;
        }
        proof {
            if !done {
                assert(token_scan(s, p0, cnt as int, tokbuf@, esc) == (tokbuf@, cnt as int));
            }
            assert((tokbuf@, cnt as int) == token_scan(s, p0, 0, Seq::empty(), false));
        }
        if cnt > 1 {
            self.pos = self.pos + cnt - 1;
        } else {
            self.pos = self.pos + 1;
        }
        proof {
            assert(self.id as int == self.result@.len() + 1);
            assert(self.id as int <= self.pos as int + 1);
            assert((self.pos as int) < self.data@.len());
            assert(self.labels_spec() == old(self).labels_spec());
        }
        trim_str(tokbuf.as_str())
    }

    /// Run the tree builder over the whole text: the elements of
    /// [`build_rec`] on the token stream, appended to the collection in
    /// creation order, under the unmaterialized root 0 at level 0.
    pub fn parse(&mut self)
        requires
            old(self).wf(),
        ensures
            final(self).wf(),
            final(self).data_spec() == old(self).data_spec(),
            final(self).results_spec() == old(self).results_spec() + build_rec(
                token_list(old(self).data_spec(), old(self).pos_spec()),
                old(self).next_id_spec(),
                0,
                0,
            ).0,
            final(self).next_id_spec() == old(self).next_id_spec() + build_rec(
                token_list(old(self).data_spec(), old(self).pos_spec()),
                old(self).next_id_spec(),
                0,
                0,
            ).0.len(),
            old(self).results_spec() == Seq::<ElemModel>::empty() && old(self).next_id_spec() == 1
                ==> wf_elements(final(self).results_spec()),
    {
        self.parse_recurse(0, 0);
        proof {
            if old(self).results_spec() == Seq::<ElemModel>::empty() && old(self).next_id_spec()
                == 1 {
                let toks = token_list(old(self).data_spec(), old(self).pos_spec());
                lemma_parse_output_wf(toks);
                assert(self.results_spec() =~= build_rec(toks, 1, 0, 0).0);
            }
        }
    }

    /// One frame of the recursive-descent builder: consume the sibling
    /// tokens under `parent` at depth `level`, exactly as
    /// [`build_rec`] states.
    #[verifier::rlimit(100)]
    #[verifier::spinoff_prover]
    fn parse_recurse(&mut self, parent: usize, level: usize)
        requires
            old(self).wf(),
            level as int <= old(self).result@.len(),
        ensures
            final(self).wf(),
            final(self).data_spec() == old(self).data_spec(),
            final(self).pos_spec() >= old(self).pos_spec(),
            final(self).results_spec() == old(self).results_spec() + build_rec(
                token_list(old(self).data_spec(), old(self).pos_spec()),
                old(self).next_id_spec(),
                level as int,
                parent as int,
            ).0,
            final(self).next_id_spec() == old(self).next_id_spec() + build_rec(
                token_list(old(self).data_spec(), old(self).pos_spec()),
                old(self).next_id_spec(),
                level as int,
                parent as int,
            ).0.len(),
            token_list(final(self).data_spec(), final(self).pos_spec()) == token_list(
                old(self).data_spec(),
                old(self).pos_spec(),
            ).skip(
                build_rec(
                    token_list(old(self).data_spec(), old(self).pos_spec()),
                    old(self).next_id_spec(),
                    level as int,
                    parent as int,
                ).1,
            ),
        decreases self.data@.len() - self.pos,
    {
        let n = self.data.as_str().unicode_len();
        let ghost s = old(self).data@;
        let ghost p_entry = old(self).pos as int;
        let ghost id_entry = old(self).id as int;
        let ghost r_entry = old(self).result@;
        let ghost toks0 = token_list(s, p_entry);
        let ghost b = build_rec(toks0, id_entry, level as int, parent as int);
        let ghost mut used: int = 0;
        let ghost mut added: Seq<ElemModel> = Seq::empty();
        proof {
            lemma_build_used(toks0, id_entry, level as int, parent as int);
            assert(toks0.skip(0) =~= toks0);
            assert(elems_view(self.result@) =~= elems_view(r_entry) + added);
        }
        loop
            invariant_except_break
                b.0 == added + build_rec(
                    token_list(s, self.pos as int),
                    self.id as int,
                    level as int,
                    parent as int,
                ).0,
                b.1 == used + build_rec(
                    token_list(s, self.pos as int),
                    self.id as int,
                    level as int,
                    parent as int,
                ).1,
            invariant
                old(self).wf(),
                s == old(self).data@,
                p_entry == old(self).pos as int,
                id_entry == old(self).id as int,
                r_entry == old(self).result@,
                toks0 == token_list(s, p_entry),
                b == build_rec(toks0, id_entry, level as int, parent as int),
                self.wf(),
                self.data@ == s,
                n == s.len(),
                self.pos as int >= p_entry,
                level as int <= self.result@.len(),
                0 <= used <= toks0.len(),
                token_list(s, self.pos as int) == toks0.skip(used),
                elems_view(self.result@) == elems_view(r_entry) + added,
                self.id as int == id_entry + added.len(),
            ensures
                self.wf(),
                self.data@ == s,
                self.pos as int >= p_entry,
                elems_view(self.result@) == elems_view(r_entry) + b.0,
                self.id as int == id_entry + b.0.len(),
                token_list(s, self.pos as int) == toks0.skip(b.1),
            decreases s.len() - self.pos,
        {
            let ghost p_before = self.pos as int;
            let ghost id_before = self.id as int;
            let ghost added_before = added;
            let ghost used_before = used;
            let ghost toks_here = token_list(s, p_before);
            let ghost bnow = build_rec(toks_here, id_before, level as int, parent as int);
            let tok = self.next_token();
            let ghost tv = tok@;
            let tlen = tok.as_str().unicode_len();
            if tlen == 0 {
                proof {
                    if p_before + 1 >= s.len() {
                        assert(toks_here =~= Seq::<Seq<char>>::empty());
                        assert(toks0.skip(b.1) =~= token_list(s, self.pos as int));
                    } else {
                        lemma_token_list_step(s, p_before);
                        assert(toks_here[0] == tv);
                        assert(toks_here.skip(1) =~= token_list(s, self.pos as int));
                        assert(toks_here.skip(1) =~= toks0.skip(used + 1));
                        used = used + 1;
                        assert(token_list(s, self.pos as int) =~= toks0.skip(used));
                    }
                    assert(elems_view(self.result@) =~= elems_view(r_entry) + b.0);
                }
                break;
            }
            proof {
                assert(p_before + 1 < s.len());
                lemma_token_list_step(s, p_before);
                assert(toks_here == seq![tv] + token_list(s, self.pos as int));
                assert(toks_here[0] == tv);
                assert(toks_here.skip(1) =~= token_list(s, self.pos as int));
                assert(toks_here =~= toks0.skip(used_before));
            }
            let c0 = tok.as_str().get_char(0);
            if tlen == 1 && c0 == ']' {
                proof {
                    assert(is_close_tok(tv));
                    used = used + 1;
                    assert(token_list(s, self.pos as int) =~= toks0.skip(used));
                    assert(elems_view(self.result@) =~= elems_view(r_entry) + b.0);
                }
                break;
            }
            if c0 == '[' {
                let rest = tok.as_str().substring_char(1, tlen).to_owned();
                proof {
                    assert(rest@ =~= tv.skip(1));
                }
                let rlen = tlen - 1;
                let sp = first_space(rest.as_str());
                let branch_id = self.id;
                let ghost p1 = self.pos as int;
                if sp != 0 {
                    let label = unescape_spaces(rest.as_str().substring_char(0, sp));
                    let child_txt = unescape_spaces(rest.as_str().substring_char(sp, rlen));
                    let label_copy = label.clone();
                    let ghost branchm = branch_model(
                        id_before,
                        crate::text::unescape_spaces_from(tv.skip(1).subrange(0, sp as int), 0),
                        parent as int,
                        level as int,
                    );
                    let ghost leafm = elem_model(
                        id_before + 1,
                        crate::text::unescape_spaces_from(
                            tv.skip(1).subrange(sp as int, tv.skip(1).len() as int),
                            0,
                        ),
                        id_before,
                        level as int + 1,
                    );
                    proof {
                        lemma_next_token_long_advance(s, p_before);
                        assert(p1 - p_before >= tlen - 1);
                        assert(tlen >= 3);
                        assert(label@ == crate::text::unescape_spaces_from(
                            tv.skip(1).subrange(0, sp as int),
                            0,
                        ));
                        assert(child_txt@ == crate::text::unescape_spaces_from(
                            tv.skip(1).subrange(sp as int, tv.skip(1).len() as int),
                            0,
                        ));
                    }
                    let ghost branchm2 = branch_model(
                        id_before,
                        label@,
                        parent as int,
                        level as int,
                    );
                    let ghost leafm2 = elem_model(
                        id_before + 1,
                        child_txt@,
                        id_before,
                        level as int + 1,
                    );
                    let mut e = Element::new(self.id, label, parent, level);
                    e.element_type = ElementType::Branch;
                    proof {
                        assert(e@ == branchm2);
                    }
                    self.result.push(e);
                    proof {
                        assert(elems_view(self.result@) =~= (elems_view(r_entry)
                            + added_before).push(branchm2));
                    }
                    self.id += 1;
                    self.count_node(label_copy);
                    let e2 = Element::new(self.id, child_txt, branch_id, level + 1);
                    proof {
                        assert(e2@ == leafm2);
                    }
                    self.result.push(e2);
                    self.id += 1;
                    proof {
                        assert(elems_view(self.result@) =~= ((elems_view(r_entry)
                            + added_before).push(branchm2)).push(leafm2));
                        assert(elems_view(self.result@) =~= elems_view(r_entry) + (added_before
                            + seq![branchm2, leafm2]));
                        assert(self.pos as int > p_entry);
                    }
                    self.parse_recurse(branch_id, level + 1);
                    proof {
                        let ghost ctoks = toks_here.skip(1);
                        let ghost child_b = build_rec(
                            ctoks,
                            id_before + 2,
                            level as int + 1,
                            id_before,
                        );
                        lemma_build_used(ctoks, id_before + 2, level as int + 1, id_before);
                        let ghost cu = clip_used(child_b.1, toks_here.len() - 1);
                        assert(cu == child_b.1);
                        let ghost sib_in = toks_here.skip(1 + cu);
                        let ghost sib_b = build_rec(
                            sib_in,
                            id_before + 2 + child_b.0.len(),
                            level as int,
                            parent as int,
                        );
                        lemma_build_used(
                            sib_in,
                            id_before + 2 + child_b.0.len(),
                            level as int,
                            parent as int,
                        );
                        assert(bnow.0 == seq![branchm, leafm] + child_b.0 + sib_b.0);
                        assert(bnow.1 == 1 + cu + sib_b.1);
                        assert(token_list(s, self.pos as int) =~= ctoks.skip(cu));
                        assert(ctoks.skip(cu) =~= toks_here.skip(1 + cu));
                        assert(toks_here.skip(1 + cu) =~= toks0.skip(used_before + 1 + cu));
                        used = used_before + 1 + cu;
                        added = added_before + seq![branchm, leafm] + child_b.0;
                        assert(branchm == branchm2 && leafm == leafm2);
                        assert(elems_view(self.result@) =~= elems_view(r_entry) + added);
                        assert(b.0 =~= added + sib_b.0);
                        assert(b.1 == used + sib_b.1);
                        assert(used <= toks0.len());
                    }
                } else {
                    let joined_copy = rest.clone();
                    let ghost branchm = branch_model(
                        id_before,
                        tv.skip(1),
                        parent as int,
                        level as int,
                    );
                    let mut e = Element::new(self.id, rest, parent, level);
                    e.element_type = ElementType::Branch;
                    proof {
                        assert(e@ == branchm);
                    }
                    self.result.push(e);
                    proof {
                        assert(elems_view(self.result@) =~= (elems_view(r_entry)
                            + added_before).push(branchm));
                    }
                    self.id += 1;
                    self.count_node(joined_copy);
                    proof {
                        assert(elems_view(self.result@) =~= elems_view(r_entry) + (added_before
                            + seq![branchm]));
                        assert(self.pos as int > p_entry);
                    }
                    self.parse_recurse(branch_id, level + 1);
                    proof {
                        let ghost ctoks = toks_here.skip(1);
                        let ghost child_b = build_rec(
                            ctoks,
                            id_before + 1,
                            level as int + 1,
                            id_before,
                        );
                        lemma_build_used(ctoks, id_before + 1, level as int + 1, id_before);
                        let ghost cu = clip_used(child_b.1, toks_here.len() - 1);
                        assert(cu == child_b.1);
                        let ghost sib_in = toks_here.skip(1 + cu);
                        let ghost sib_b = build_rec(
                            sib_in,
                            id_before + 1 + child_b.0.len(),
                            level as int,
                            parent as int,
                        );
                        lemma_build_used(
                            sib_in,
                            id_before + 1 + child_b.0.len(),
                            level as int,
                            parent as int,
                        );
                        assert(bnow.0 == seq![branchm] + child_b.0 + sib_b.0);
                        assert(bnow.1 == 1 + cu + sib_b.1);
                        assert(token_list(s, self.pos as int) =~= ctoks.skip(cu));
                        assert(ctoks.skip(cu) =~= toks_here.skip(1 + cu));
                        assert(toks_here.skip(1 + cu) =~= toks0.skip(used_before + 1 + cu));
                        used = used_before + 1 + cu;
                        added = added_before + seq![branchm] + child_b.0;
                        assert(elems_view(self.result@) =~= elems_view(r_entry) + added);
                        assert(b.0 =~= added + sib_b.0);
                        assert(b.1 == used + sib_b.1);
                        assert(used <= toks0.len());
                    }
                }
            } else {
                let tok_copy = tok.clone();
                let ghost leafm = elem_model(id_before, tv, parent as int, level as int);
                let e = Element::new(self.id, tok, parent, level);
                self.result.push(e);
                proof {
                    assert(elems_view(self.result@) =~= (elems_view(r_entry) + added_before).push(
                        leafm,
                    ));
                    assert((elems_view(r_entry) + added_before).push(leafm) =~= elems_view(r_entry)
                        + (added_before + seq![leafm]));
                }
                self.id += 1;
                self.count_node(tok_copy);
                proof {
                    let ghost sib_in = toks_here.skip(1);
                    let ghost sib_b = build_rec(
                        sib_in,
                        id_before + 1,
                        level as int,
                        parent as int,
                    );
                    lemma_build_used(sib_in, id_before + 1, level as int, parent as int);
                    assert(bnow.0 == seq![leafm] + sib_b.0);
                    assert(bnow.1 == 1 + sib_b.1);
                    used = used_before + 1;
                    added = added_before + seq![leafm];
                    assert(toks_here.skip(1) =~= toks0.skip(used_before + 1));
                    assert(token_list(s, self.pos as int) =~= toks0.skip(used));
                    assert(elems_view(self.result@) =~= elems_view(r_entry) + added);
                    assert(b.0 =~= added + sib_b.0);
                    assert(b.1 == used + sib_b.1);
                    assert(used <= toks0.len());
                }
            }
        }
    }

    /// The label post-processor: append `_k` to the k-th repeat of each
    /// branch label, counting repeats from 1 in collection order and
    /// leaving first occurrences and leaves untouched — one pass of
    /// [`subscript_model`] over the collection.
    pub fn auto_subscript(&mut self)
        requires
            old(self).wf(),
        ensures
            final(self).wf(),
            final(self).data_spec() == old(self).data_spec(),
            final(self).pos_spec() == old(self).pos_spec(),
            final(self).next_id_spec() == old(self).next_id_spec(),
            final(self).labels_spec() == old(self).labels_spec(),
            final(self).results_spec() == subscript_model(old(self).results_spec()),
    {
        let ghost sm = self.results_spec();
        let n = self.result.len();
        let mut out: Vec<Element> = Vec::new();
        let mut i: usize = 0;
        while i < n
            invariant
                old(self).wf(),
                self == old(self),
                sm == self.results_spec(),
                n == self.result@.len(),
                i <= n,
                out@.len() == i,
                forall|j: int| 0 <= j < i ==> (#[trigger] out@[j])@ == subscript_model(sm)[j],
            decreases n - i,
        {
            let is_branch = self.result[i].element_type == ElementType::Branch;
            let mut matched: usize = 0;
            if is_branch {
                let mut j: usize = 0;
                while j < i
                    invariant
                        old(self).wf(),
                        self == old(self),
                        sm == self.results_spec(),
                        n == self.result@.len(),
                        i < n,
                        j <= i,
                        matched <= j,
                        self.result@[i as int].element_type is Branch,
                        matched as int == branch_count(sm, sm[i as int].content, j as int),
                    decreases i - j,
                {
                    if self.result[j].element_type == ElementType::Branch && self.result[j].content
                        == self.result[i].content {
                        matched += 1;
                    }
                    j += 1;
                }
            }
            let e = &self.result[i];
            if is_branch && matched >= 1 {
                let mut content = e.content.clone();
                content.append("_");
                proof {
                    reveal_strlit("_");
                }
                crate::text::push_dec(&mut content, matched);
                let ne = Element {
                    id: e.id,
                    content: content,
                    parent: e.parent,
                    level: e.level,
                    triangle: e.triangle,
                    element_type: e.element_type,
                    width: e.width,
                    indent: e.indent,
                };
                proof {
                    assert(ne@.content =~= sm[i as int].content + seq!['_'] + dec_of(
                        matched as int,
                    ));
                    assert(ne@ == subscripted_model(sm[i as int], matched as int));
                    assert(subscript_model(sm)[i as int] == ne@);
                }
                out.push(ne);
            } else {
                proof {
                    if is_branch {
                        assert(branch_count(sm, sm[i as int].content, i as int) == 0);
                    }
                    assert(subscript_model(sm)[i as int] == sm[i as int]);
                }
                out.push(e.clone());
            }
            i += 1;
        }
        self.result = out;
        proof {
            assert(self.results_spec() =~= subscript_model(sm));
            assert(self.result@.len() == n);
            assert(self.id as int == self.result@.len() + 1);
            assert(self.labels_spec() == old(self).labels_spec());
            assert(self.wf());
        }
    }

    /// A copy of the collection built so far, element for element.
    pub fn result(&self) -> (r: Vec<Element>)
        ensures
            elems_view(r@) == self.results_spec(),
    {
        let n = self.result.len();
        let mut out: Vec<Element> = Vec::new();
        let mut i: usize = 0;
        while i < n
            invariant
                n == self.result@.len(),
                i <= n,
                out@.len() == i,
                forall|j: int| 0 <= j < i ==> (#[trigger] out@[j])@ == self.result@[j]@,
            decreases n - i,
        {
            out.push(self.result[i].clone());
            i += 1;
        }
        proof {
            assert(elems_view(out@) =~= elems_view(self.result@));
        }
        out
    }
}

/// Append the character of `src` at `i` to `dst`.
fn append_char(dst: &mut String, src: &str, i: usize)
    requires
        i < src@.len(),
        i as int + 1 <= usize::MAX as int,
    ensures
        final(dst)@ == old(dst)@ + seq![src@[i as int]],
{
    let piece = src.substring_char(i, i + 1);
    proof {
        assert(piece@ =~= seq![src@[i as int]]);
    }
    dst.append(piece);
}

} // verus!
