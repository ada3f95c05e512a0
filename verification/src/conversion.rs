//! What is handed to the converter that turns models into their mid-format, and
//! what is made of its answers.

use crate::fittings::{extra_views, main_views, ExtraModel, ExtraView, MainModel, MainView};
use crate::pipeline::{Resolved, ResolvedView};
use crate::text::{
    cat, cat3, chars_of, clone_texts, debug_text, dedup, lines, ordered, pieces, precedes,
    quoted_debug, rhalves, rsplit_once, same_str, sort, split, split_lines, str_before, string_of,
    strings_of, each_name_once, ordered_is_in_order, texts, unrepeated, unroot, unroot_str, unrooted,
};
use crate::vehicle::{accessory_views, Accessory, AccessoryView};
use vstd::prelude::*;

verus! {

// ---------------------------------------------------------------- orders ---

/// A model to be converted, with its animations.
#[verifier::ext_equal]
pub struct OrderView {
    pub model: Seq<char>,
    pub anims: Seq<Seq<char>>,
}

pub open spec fn main_orders(v: Seq<MainView>) -> Seq<OrderView> {
    Seq::new(v.len(), |i: int| OrderView { model: v[i].model, anims: Seq::empty() })
}

pub open spec fn accessory_orders(v: Seq<AccessoryView>) -> Seq<OrderView> {
    Seq::new(v.len(), |i: int| OrderView { model: unrooted(v[i].model), anims: Seq::empty() })
}

pub open spec fn extra_orders(v: Seq<ExtraView>) -> Seq<OrderView> {
    Seq::new(v.len(), |i: int| OrderView { model: unrooted(v[i].model), anims: v[i].anims })
}

pub open spec fn one_order(m: Option<Seq<char>>) -> Seq<OrderView> {
    match m {
        Some(s) => seq![OrderView { model: unrooted(s), anims: Seq::empty() }],
        None => Seq::empty(),
    }
}

/// All the models of a vehicle, as they come; only what moves has animations.
pub open spec fn orders_of(v: ResolvedView) -> Seq<OrderView> {
    main_orders(v.main) + accessory_orders(v.accessories) + extra_orders(v.extras) + one_order(
        v.wheels.rim_front,
    ) + one_order(v.wheels.rim_rear) + one_order(v.wheels.tyre)
}

/// Whether one list of texts comes before another in the dictionary.
pub open spec fn list_precedes(a: Seq<Seq<char>>, b: Seq<Seq<char>>) -> bool
    decreases a.len(),
{
    if b.len() == 0 {
        false
    } else if a.len() == 0 {
        true
    } else if a[0] == b[0] {
        list_precedes(a.skip(1), b.skip(1))
    } else {
        precedes(a[0], b[0])
    }
}

/// The first in the dictionary of the animation lists ordered for a model.
pub open spec fn least_anims(v: Seq<OrderView>, model: Seq<char>) -> Option<Seq<Seq<char>>>
    decreases v.len(),
{
    if v.len() == 0 {
        None
    } else {
        let r = least_anims(v.drop_last(), model);
        if v.last().model != model {
            r
        } else {
            match r {
                Some(a) => if list_precedes(v.last().anims, a) {
                    Some(v.last().anims)
                } else {
                    Some(a)
                },
                None => Some(v.last().anims),
            }
        }
    }
}

pub open spec fn models_of(v: Seq<OrderView>) -> Seq<Seq<char>> {
    Seq::new(v.len(), |i: int| v[i].model)
}

/// Orders in the order of their models, one for each model.
pub open spec fn merged(v: Seq<OrderView>) -> Seq<OrderView> {
    let names = unrepeated(ordered(models_of(v)));
    Seq::new(
        names.len(),
        |i: int|
            OrderView {
                model: names[i],
                anims: match least_anims(v, names[i]) {
                    Some(a) => a,
                    None => Seq::empty(),
                },
            },
    )
}

pub struct Order {
    pub model: String,
    pub anims: Vec<String>,
}

impl View for Order {
    type V = OrderView;

    open spec fn view(&self) -> OrderView {
        OrderView { model: self.model@, anims: texts(self.anims@) }
    }
}

pub open spec fn order_views(v: Seq<Order>) -> Seq<OrderView> {
    Seq::new(v.len(), |i: int| v[i]@)
}

fn put(v: &mut Vec<Order>, model: String, anims: Vec<String>)
    ensures
        order_views(final(v)@) == order_views(old(v)@).push(
            OrderView { model: model@, anims: texts(anims@) },
        ),
{
    let ghost was = order_views(v@);
    let o = Order { model, anims };
    let ghost ov = o@;
    v.push(o);
    assert(order_views(v@) =~= was.push(ov));
}

fn no_anims() -> (r: Vec<String>)
    ensures
        texts(r@) == Seq::<Seq<char>>::empty(),
{
    let r: Vec<String> = Vec::new();
    assert(texts(r@) =~= Seq::<Seq<char>>::empty());
    r
}

fn put_one(v: &mut Vec<Order>, m: &Option<String>)
    ensures
        order_views(final(v)@) == order_views(old(v)@) + one_order(crate::text::opt_text(*m)),
{
    let ghost was = order_views(v@);
    match m {
        Some(s) => {
            put(v, unroot_str(s.as_str()), no_anims());
            assert(order_views(v@) =~= was + one_order(crate::text::opt_text(*m)));
        },
        None => {
            assert(order_views(v@) =~= was + one_order(crate::text::opt_text(*m)));
        },
    }
}

fn put_mains(v: &mut Vec<Order>, m: &Vec<MainModel>)
    ensures
        order_views(final(v)@) == order_views(old(v)@) + main_orders(main_views(m@)),
{
    let ghost was = order_views(v@);
    let ghost all = main_orders(main_views(m@));
    let mut i: usize = 0;
    assert(was + all.take(0) =~= was);
    while i < m.len()
        invariant
            i <= m@.len(),
            all == main_orders(main_views(m@)),
            order_views(v@) == was + all.take(i as int),
        decreases m@.len() - i,
    {
        assert(main_views(m@)[i as int] == m@[i as int]@);
        put(v, m[i].model.as_str().to_owned(), no_anims());
        assert((was + all.take(i as int)).push(all[i as int]) =~= was + all.take(i + 1));
        i = i + 1;
    }
    assert(all.take(i as int) =~= all);
}

fn put_accessories(v: &mut Vec<Order>, m: &Vec<Accessory>)
    ensures
        order_views(final(v)@) == order_views(old(v)@) + accessory_orders(accessory_views(m@)),
{
    let ghost was = order_views(v@);
    let ghost all = accessory_orders(accessory_views(m@));
    let mut i: usize = 0;
    assert(was + all.take(0) =~= was);
    while i < m.len()
        invariant
            i <= m@.len(),
            all == accessory_orders(accessory_views(m@)),
            order_views(v@) == was + all.take(i as int),
        decreases m@.len() - i,
    {
        assert(accessory_views(m@)[i as int] == m@[i as int]@);
        put(v, unroot_str(m[i].model.as_str()), no_anims());
        assert((was + all.take(i as int)).push(all[i as int]) =~= was + all.take(i + 1));
        i = i + 1;
    }
    assert(all.take(i as int) =~= all);
}

fn put_extras(v: &mut Vec<Order>, m: &Vec<ExtraModel>)
    ensures
        order_views(final(v)@) == order_views(old(v)@) + extra_orders(extra_views(m@)),
{
    let ghost was = order_views(v@);
    let ghost all = extra_orders(extra_views(m@));
    let mut i: usize = 0;
    assert(was + all.take(0) =~= was);
    while i < m.len()
        invariant
            i <= m@.len(),
            all == extra_orders(extra_views(m@)),
            order_views(v@) == was + all.take(i as int),
        decreases m@.len() - i,
    {
        assert(extra_views(m@)[i as int] == m@[i as int]@);
        put(v, unroot_str(m[i].model.as_str()), clone_texts(&m[i].anims));
        assert((was + all.take(i as int)).push(all[i as int]) =~= was + all.take(i + 1));
        i = i + 1;
    }
    assert(all.take(i as int) =~= all);
}

fn list_before(a: &Vec<String>, b: &Vec<String>) -> (r: bool)
    ensures
        r == list_precedes(texts(a@), texts(b@)),
{
    let ghost av = texts(a@);
    let ghost bv = texts(b@);
    let mut i: usize = 0;
    assert(av.skip(0) =~= av);
    assert(bv.skip(0) =~= bv);
    while i < a.len() && i < b.len()
        invariant
            i <= a@.len(),
            i <= b@.len(),
            av == texts(a@),
            bv == texts(b@),
            list_precedes(av.skip(i as int), bv.skip(i as int)) == list_precedes(av, bv),
        decreases a@.len() - i,
    {
        assert(av.skip(i as int)[0] == a@[i as int]@);
        assert(bv.skip(i as int)[0] == b@[i as int]@);
        if !same_str(a[i].as_str(), b[i].as_str()) {
            return str_before(a[i].as_str(), b[i].as_str());
        }
        assert(av.skip(i as int).skip(1) =~= av.skip(i + 1));
        assert(bv.skip(i as int).skip(1) =~= bv.skip(i + 1));
        i = i + 1;
    }
    i < b.len()
}

fn find_least(v: &Vec<Order>, model: &str) -> (r: Option<usize>)
    ensures
        match r {
            Some(k) => k < v@.len() && least_anims(order_views(v@), model@) == Some(
                texts(v@[k as int].anims@),
            ),
            None => least_anims(order_views(v@), model@) is None,
        },
{
    let ghost all = order_views(v@);
    let mut best: Option<usize> = None;
    let mut i: usize = 0;
    assert(all.take(0) =~= Seq::<OrderView>::empty());
    while i < v.len()
        invariant
            i <= v@.len(),
            all == order_views(v@),
            match best {
                Some(k) => k < v@.len() && least_anims(all.take(i as int), model@) == Some(
                    texts(v@[k as int].anims@),
                ),
                None => least_anims(all.take(i as int), model@) is None,
            },
        decreases v@.len() - i,
    {
        assert(all.take(i + 1).drop_last() =~= all.take(i as int));
        assert(all.take(i + 1).last() == v@[i as int]@);
        if same_str(v[i].model.as_str(), model) {
            match best {
                Some(k) => {
                    if list_before(&v[i].anims, &v[k].anims) {
                        best = Some(i);
                    }
                },
                None => {
                    best = Some(i);
                },
            }
        }
        i = i + 1;
    }
    assert(all.take(i as int) =~= all);
    best
}

fn merge(v: &Vec<Order>) -> (r: Vec<Order>)
    ensures
        order_views(r@) == merged(order_views(v@)),
{
    let ghost all = order_views(v@);
    let mut names: Vec<String> = Vec::new();
    let mut i: usize = 0;
    while i < v.len()
        invariant
            i <= v@.len(),
            all == order_views(v@),
            texts(names@) =~= models_of(all).take(i as int),
        decreases v@.len() - i,
    {
        let ghost before = texts(names@);
        assert(all[i as int] == v@[i as int]@);
        names.push(v[i].model.as_str().to_owned());
        assert(texts(names@) =~= before.push(all[i as int].model));
        i = i + 1;
    }
    assert(texts(names@) =~= models_of(all));
    let names = dedup(sort(names));
    let mut r: Vec<Order> = Vec::new();
    let ghost want = merged(all);
    let mut k: usize = 0;
    assert(order_views(r@) =~= want.take(0));
    while k < names.len()
        invariant
            k <= names@.len(),
            all == order_views(v@),
            want == merged(all),
            texts(names@) == unrepeated(ordered(models_of(all))),
            order_views(r@) == want.take(k as int),
        decreases names@.len() - k,
    {
        let anims = match find_least(v, names[k].as_str()) {
            Some(j) => clone_texts(&v[j].anims),
            None => no_anims(),
        };
        assert(texts(names@)[k as int] == names@[k as int]@);
        put(&mut r, names[k].as_str().to_owned(), anims);
        assert(want.take(k as int).push(want[k as int]) =~= want.take(k + 1));
        k = k + 1;
    }
    assert(want.take(k as int) =~= want);
    r
}

/// The models of a vehicle that are to be converted, each once.
pub fn orders(v: &Resolved) -> (r: Vec<Order>)
    ensures
        order_views(r@) == merged(orders_of(v@)),
{
    let mut all: Vec<Order> = Vec::new();
    assert(order_views(all@) =~= Seq::<OrderView>::empty());
    put_mains(&mut all, &v.main);
    assert(order_views(all@) =~= main_orders(v@.main));
    put_accessories(&mut all, &v.accessories);
    put_extras(&mut all, &v.extras);
    put_one(&mut all, &v.wheels.rim_front);
    put_one(&mut all, &v.wheels.rim_rear);
    put_one(&mut all, &v.wheels.tyre);
    merge(&all)
}

/// Each model of a vehicle is converted, and none of them twice.
pub proof fn each_model_is_converted_once(v: Seq<OrderView>)
    ensures
        models_of(merged(v)).no_duplicates(),
        forall|m: Seq<char>| #[trigger]
            models_of(merged(v)).contains(m) <==> models_of(v).contains(m),
{
    let names = models_of(v);
    ordered_is_in_order(names);
    each_name_once(ordered(names));
    assert(models_of(merged(v)) =~= unrepeated(ordered(names)));
    assert forall|m: Seq<char>| ordered(names).contains(m) <==> names.contains(m) by {
        broadcast use vstd::seq_lib::group_to_multiset_ensures;

        assert(ordered(names).to_multiset().count(m) == names.to_multiset().count(m));
    }
}

// --------------------------------------------------------------- answers ---

/// A path from the root of the archive.
pub open spec fn rooted(s: Seq<char>) -> Seq<char> {
    "/"@ + unrooted(s)
}

fn root(s: &str) -> (r: String)
    ensures
        r@ == rooted(s@),
{
    cat("/", unroot_str(s).as_str())
}

/// The arguments that name a model to the converter: the model, and right behind
/// it the animations that the skeleton is built from.
pub open spec fn arguments(o: OrderView) -> Seq<Seq<char>> {
    seq![rooted(o.model)] + Seq::new(o.anims.len(), |i: int| rooted(o.anims[i]))
}

pub fn converter_args(o: &Order) -> (r: Vec<String>)
    ensures
        texts(r@) == arguments(o@),
{
    let ghost want = arguments(o@);
    let mut r: Vec<String> = Vec::new();
    r.push(root(o.model.as_str()));
    let mut i: usize = 0;
    assert(texts(r@) =~= want.take(1));
    while i < o.anims.len()
        invariant
            i <= o.anims@.len(),
            want == arguments(o@),
            texts(r@) == want.take(i + 1),
        decreases o.anims@.len() - i,
    {
        let ghost before = texts(r@);
        let s = root(o.anims[i].as_str());
        let ghost sv = s@;
        assert(o@.anims[i as int] == o.anims@[i as int]@);
        assert(sv == want[i + 1]);
        r.push(s);
        assert(texts(r@) =~= before.push(sv));
        assert(before.push(sv) =~= want.take(i + 2));
        i = i + 1;
    }
    assert(want.take(i + 1) =~= want);
    r
}

/// The reason that the converter gave: its last line.
pub open spec fn reason(output: Seq<char>) -> Seq<char> {
    if lines(output).len() > 0 {
        lines(output).last()
    } else {
        "failed"@
    }
}

pub fn failure_line(output: &str) -> (r: String)
    ensures
        r@ == reason(output@),
{
    let c = chars_of(output);
    let ls = split_lines(c.as_slice());
    let n: usize = ls.len();
    if n > 0 {
        assert(crate::text::parts(ls@)[n - 1] == ls@[n - 1]@);
        string_of(ls[n - 1])
    } else {
        "failed".to_owned()
    }
}

/// What is said of a model that the converter refused.
pub open spec fn refusal(model: Seq<char>, why: Seq<char>) -> Seq<char> {
    "ConverterPIX refused "@ + model + ": "@ + why
}

pub fn refusal_note(model: &str, why: &str) -> (r: String)
    ensures
        r@ == refusal(model@, why@),
{
    cat3(cat("ConverterPIX refused ", model).as_str(), ": ", why)
}

/// Whether the body is among the models that were converted. Without it there is
/// nothing to assemble.
pub open spec fn body_came_through(v: Seq<OrderView>, ok: Seq<bool>, body: Seq<char>) -> bool {
    exists|i: int|
        0 <= i < v.len() && i < ok.len() && #[trigger] v[i].model == body && ok[i]
}

pub fn body_converted(v: &Vec<Order>, ok: &Vec<bool>, body: &str) -> (r: bool)
    ensures
        r == body_came_through(order_views(v@), ok@, body@),
{
    let ghost all = order_views(v@);
    let mut i: usize = 0;
    while i < v.len() && i < ok.len()
        invariant
            i <= v@.len(),
            i <= ok@.len(),
            all == order_views(v@),
            forall|k: int| 0 <= k < i ==> !(#[trigger] all[k].model == body@ && ok@[k]),
        decreases v@.len() - i,
    {
        assert(all[i as int] == v@[i as int]@);
        if ok[i] && same_str(v[i].model.as_str(), body) {
            assert(all[i as int].model == body@ && ok@[i as int]);
            return true;
        }
        i = i + 1;
    }
    false
}

/// The error where the body did not come through.
pub open spec fn nothing_to_import(body: Seq<char>) -> Seq<char> {
    "the body model "@ + debug_text(body)
        + " could not be converted - there is nothing to import"@
}

pub fn body_error(body: &str) -> (r: String)
    ensures
        r@ == nothing_to_import(body@),
{
    cat3(
        "the body model ",
        quoted_debug(body).as_str(),
        " could not be converted - there is nothing to import",
    )
}

// ------------------------------------------------------------ animations ---

/// An animation, and the folder of the model that it moves: readers look for it
/// there, and the converter writes it to where the animation was.
#[verifier::ext_equal]
pub struct MoveView {
    pub from: Seq<Seq<char>>,
    pub to: Seq<Seq<char>>,
}

pub open spec fn moves_of_one(e: ExtraView) -> Seq<MoveView> {
    match rhalves(unrooted(e.model), '/') {
        None => Seq::empty(),
        Some(h) => Seq::new(
            e.anims.len(),
            |i: int| MoveView { from: pieces(unrooted(e.anims[i]), '/'), to: pieces(h.0, '/') },
        ),
    }
}

pub open spec fn moves_of(v: Seq<ExtraView>) -> Seq<MoveView>
    decreases v.len(),
{
    if v.len() == 0 {
        Seq::empty()
    } else {
        moves_of(v.drop_last()) + moves_of_one(v.last())
    }
}

pub struct Move {
    pub from: Vec<String>,
    pub to: Vec<String>,
}

impl View for Move {
    type V = MoveView;

    open spec fn view(&self) -> MoveView {
        MoveView { from: texts(self.from@), to: texts(self.to@) }
    }
}

pub open spec fn move_views(v: Seq<Move>) -> Seq<MoveView> {
    Seq::new(v.len(), |i: int| v[i]@)
}

fn path_names(s: &[char]) -> (r: Vec<String>)
    ensures
        texts(r@) == pieces(s@, '/'),
{
    let p = split(s, '/');
    strings_of(&p)
}

/// The animations that are to be put next to their models.
pub fn animation_moves(v: &Vec<ExtraModel>) -> (r: Vec<Move>)
    ensures
        move_views(r@) == moves_of(extra_views(v@)),
{
    let ghost all = extra_views(v@);
    let mut r: Vec<Move> = Vec::new();
    let mut i: usize = 0;
    assert(all.take(0) =~= Seq::<ExtraView>::empty());
    assert(move_views(r@) =~= Seq::<MoveView>::empty());
    while i < v.len()
        invariant
            i <= v@.len(),
            all == extra_views(v@),
            move_views(r@) == moves_of(all.take(i as int)),
        decreases v@.len() - i,
    {
        let e = &v[i];
        assert(all.take(i + 1).drop_last() =~= all.take(i as int));
        assert(all.take(i + 1).last() == e@);
        let ghost before = move_views(r@);
        let ghost here = moves_of_one(e@);
        let c = chars_of(e.model.as_str());
        match rsplit_once(unroot(c.as_slice()), '/') {
            None => {
                assert(before + here =~= before);
            },
            Some(h) => {
                let mut k: usize = 0;
                assert(before + here.take(0) =~= before);
                while k < e.anims.len()
                    invariant
                        k <= e.anims@.len(),
                        here == moves_of_one(e@),
                        here.len() == e.anims@.len(),
                        rhalves(unrooted(e@.model), '/') == Some((h.0@, h.1@)),
                        move_views(r@) == before + here.take(k as int),
                    decreases e.anims@.len() - k,
                {
                    let a = chars_of(e.anims[k].as_str());
                    let m = Move {
                        from: path_names(unroot(a.as_slice())),
                        to: path_names(h.0),
                    };
                    let ghost mv = m@;
                    let ghost prior = move_views(r@);
                    assert(e@.anims[k as int] == e.anims@[k as int]@);
                    assert(mv == here[k as int]);
                    r.push(m);
                    assert(move_views(r@) =~= prior.push(mv));
                    assert(prior.push(mv) =~= before + here.take(k + 1));
                    k = k + 1;
                }
                assert(here.take(k as int) =~= here);
            },
        }
        i = i + 1;
    }
    assert(all.take(i as int) =~= all);
    r
}

} // verus!
