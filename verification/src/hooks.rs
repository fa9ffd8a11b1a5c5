//! The state of the hierarchy module: whether it was set up, and the hooks
//! that want to hear of resolved links.

use crate::components::OnParentHookContext;
use crate::ecs::Scene;
use crate::resolve::{has_named_parent, holds_name, links_made};
use emerald::Entity;
use vstd::arithmetic::div_mod::{
    lemma_div_pos_is_pos, lemma_fundamental_div_mod, lemma_fundamental_div_mod_converse,
    lemma_mod_bound,
};
use vstd::prelude::*;

verus! {

/// Something that setting the module up asks the engine to register.
#[derive(Clone, Copy, Debug, PartialEq, Eq, Structural)]
pub enum Registration {
    /// The resolver, to run once on each world that was loaded.
    WorldLoadHook,
    /// The remapper, to run once on each merge of two worlds.
    WorldMergeHandler,
    /// The component `TempId`, under the key that `component_key` gives.
    TempIdComponent,
    /// The component `TempParent`, under the key that `component_key` gives.
    TempParentComponent,
}

/// One call that is due: the hook at index `hook` hears of `event`.
#[derive(Clone, Copy, Debug)]
pub struct HookCall {
    pub hook: usize,
    pub event: OnParentHookContext,
}

/// State of the hierarchy module, held by whoever holds the engine.
///
/// `H` is the type of a hook. Hooks are kept in the order in which they were
/// registered, and none is ever removed.
pub struct Hierarchy<H> {
    initted: bool,
    hooks: Vec<H>,
}

/// What the first `init` asks for, in this order.
pub open spec fn registrations() -> Seq<Registration> {
    seq![
        Registration::WorldLoadHook,
        Registration::WorldMergeHandler,
        Registration::TempIdComponent,
        Registration::TempParentComponent,
    ]
}

/// What `init` asks for on a module that was set up before, or was not.
pub open spec fn wanted_by_init(initted: bool) -> Seq<Registration> {
    if initted {
        Seq::<Registration>::empty()
    } else {
        registrations()
    }
}

/// The calls that are due for `events` with `hooks` registered hooks: the
/// events in their order, and for each event every hook in the order of
/// registration.
pub open spec fn call_plan(events: Seq<OnParentHookContext>, hooks: nat) -> Seq<HookCall> {
    Seq::new(
        events.len() * hooks,
        |c: int| HookCall { hook: (c % hooks as int) as usize, event: events[c / hooks as int] },
    )
}

impl<H> Hierarchy<H> {
    /// Whether `init` has run.
    pub closed spec fn initted(&self) -> bool {
        self.initted
    }

    /// The registered hooks, first registered first.
    pub closed spec fn hooks(&self) -> Seq<H> {
        self.hooks@
    }

    /// A module that was not set up and has no hooks.
    pub fn new() -> (module: Self)
        ensures
            !module.initted(),
            module.hooks() == Seq::<H>::empty(),
    {
        Hierarchy { initted: false, hooks: Vec::new() }
    }

    /// Whether `init` has run.
    pub fn is_initted(&self) -> (initted: bool)
        ensures
            initted == self.initted(),
    {
        self.initted
    }

    /// The number of registered hooks.
    pub fn hook_count(&self) -> (count: usize)
        ensures
            count == self.hooks().len(),
    {
        self.hooks.len()
    }

    /// The hook that was registered as number `index`, counting from 0.
    pub fn hook(&self, index: usize) -> (hook: Option<&H>)
        ensures
            hook == (if index < self.hooks().len() {
                Some(&self.hooks()[index as int])
            } else {
                None
            }),
    {
        if index < self.hooks.len() {
            Some(&self.hooks[index])
        } else {
            None
        }
    }
}

/// The key under which a scene gives the component of `registration`.
pub fn component_key(registration: Registration) -> (key: Option<&'static str>)
    ensures
        match registration {
            Registration::TempIdComponent => key matches Some(k) && k@ == "parent_id"@,
            Registration::TempParentComponent => key matches Some(k) && k@ == "parent"@,
            _ => key is None,
        },
{
    match registration {
        Registration::TempIdComponent => Some("parent_id"),
        Registration::TempParentComponent => Some("parent"),
        _ => None,
    }
}

/// Sets the module up, and says what the engine has to register for it.
///
/// The first call asks for everything in `registrations`; every later call
/// asks for nothing. No hook is touched.
pub fn init<H>(module: &mut Hierarchy<H>) -> (wanted: Vec<Registration>)
    ensures
        final(module).initted(),
        final(module).hooks() == old(module).hooks(),
        wanted@ == wanted_by_init(old(module).initted()),
{
    let mut wanted: Vec<Registration> = Vec::new();
    if !module.initted {
        wanted.push(Registration::WorldLoadHook);
        wanted.push(Registration::WorldMergeHandler);
        wanted.push(Registration::TempIdComponent);
        wanted.push(Registration::TempParentComponent);
        module.initted = true;
    }
    wanted
}

/// Registers `hook` behind every hook registered before. This works whether
/// or not the module was set up.
pub fn add_on_parented_hook<H>(module: &mut Hierarchy<H>, hook: H)
    ensures
        final(module).hooks() == old(module).hooks().push(hook),
        final(module).initted() == old(module).initted(),
{
    module.hooks.push(hook);
}

/// The calls that are due after a resolution that reported `events`.
pub fn hook_calls<H>(module: &Hierarchy<H>, events: &Vec<OnParentHookContext>) -> (calls: Vec<
    HookCall,
>)
    ensures
        calls@ == call_plan(events@, module.hooks().len()),
{
    let count = module.hooks.len();
    let mut calls: Vec<HookCall> = Vec::new();
    let mut e: usize = 0;
    while e < events.len()
        invariant
            e <= events.len(),
            count == module.hooks().len(),
            calls@.len() == e * count,
            forall|c: int|
                0 <= c < calls@.len() ==> calls@[c] == call_plan(events@, count as nat)[c],
        decreases events.len() - e,
    {
        let mut h: usize = 0;
        while h < count
            invariant
                e < events.len(),
                h <= count,
                count == module.hooks().len(),
                calls@.len() == e * count + h,
                forall|c: int|
                    0 <= c < calls@.len() ==> calls@[c] == call_plan(events@, count as nat)[c],
            decreases count - h,
        {
            proof {
                let c = e * count + h;
                lemma_fundamental_div_mod_converse(c, count as int, e as int, h as int);
                assert(c < events@.len() * count) by (nonlinear_arith)
                    requires
                        c == e * count + h,
                        h < count,
                        e < events@.len(),
                ;
            }
            calls.push(HookCall { hook: h, event: events[e] });
            h += 1;
        }
        assert(e * count + count == (e + 1) * count) by (nonlinear_arith);
        e += 1;
    }
    assert(calls@ =~= call_plan(events@, count as nat));
    calls
}

/// Setting the module up twice registers everything once: the first call
/// asks for each registration once, and a call on a module that was set up
/// asks for nothing more.
pub proof fn lemma_init_registers_once(initted: bool)
    ensures
        registrations().no_duplicates(),
        wanted_by_init(true) == Seq::<Registration>::empty(),
        wanted_by_init(initted) + wanted_by_init(true) == wanted_by_init(initted),
{
    assert(wanted_by_init(initted) + wanted_by_init(true) =~= wanted_by_init(initted));
}

/// In the plan for `events`, the hook `hook` hears of the event at `index`
/// at one position and at no other.
pub proof fn lemma_hook_called_once_per_event(
    events: Seq<OnParentHookContext>,
    hooks: nat,
    index: int,
    hook: int,
)
    requires
        0 <= index < events.len(),
        0 <= hook < hooks <= usize::MAX,
    ensures
        0 <= index * hooks + hook < call_plan(events, hooks).len(),
        call_plan(events, hooks)[index * hooks + hook] == (HookCall {
            hook: hook as usize,
            event: events[index],
        }),
        forall|c: int|
            0 <= c < call_plan(events, hooks).len() && #[trigger] call_plan(events, hooks)[c].hook
                == hook && c / (hooks as int) == index ==> c == index * hooks + hook,
{
    let c = index * hooks + hook;
    lemma_fundamental_div_mod_converse(c, hooks as int, index, hook);
    assert(0 <= c < events.len() * hooks) by (nonlinear_arith)
        requires
            c == index * hooks + hook,
            0 <= hook < hooks,
            0 <= index < events.len(),
    ;
    assert forall|d: int|
        0 <= d < call_plan(events, hooks).len() && #[trigger] call_plan(events, hooks)[d].hook
            == hook && d / (hooks as int) == index implies d == index * hooks + hook by {
        lemma_fundamental_div_mod(d, hooks as int);
        lemma_mod_bound(d, hooks as int);
        assert(d % (hooks as int) == hook);
        assert((hooks as int) * index == index * hooks) by (nonlinear_arith);
    }
}

/// Position `c` of a plan for `events` events and `hooks` hooks belongs to
/// the event `c / hooks` and the hook `c % hooks`.
proof fn lemma_plan_position(events: int, hooks: int, c: int)
    requires
        0 <= c < events * hooks,
        0 < hooks,
        0 <= events,
    ensures
        0 <= c / hooks < events,
        0 <= c % hooks < hooks,
        c == hooks * (c / hooks) + c % hooks,
{
    lemma_fundamental_div_mod(c, hooks);
    lemma_mod_bound(c, hooks);
    lemma_div_pos_is_pos(c, hooks);
    if c / hooks >= events {
        assert(hooks * (c / hooks) >= events * hooks) by (nonlinear_arith)
            requires
                c / hooks >= events,
                hooks > 0,
        ;
    }
}

/// After a load that resolved the links that `events` reports, each hook
/// hears of each entity whose named parent exists once, and never of an
/// entity whose named parent does not exist.
pub proof fn lemma_hook_called_once_per_link(
    events: Seq<OnParentHookContext>,
    before: Scene,
    hooks: nat,
    hook: int,
    child: Entity,
)
    requires
        links_made(events, before),
        0 <= hook < hooks <= usize::MAX,
    ensures
        has_named_parent(before, child) ==> exists|c: int|
            0 <= c < call_plan(events, hooks).len() && #[trigger] call_plan(events, hooks)[c].hook
                == hook && call_plan(events, hooks)[c].event.child == child && forall|d: int|
                0 <= d < call_plan(events, hooks).len() && #[trigger] call_plan(
                    events,
                    hooks,
                )[d].hook == hook && call_plan(events, hooks)[d].event.child == child ==> d == c,
        !has_named_parent(before, child) ==> forall|c: int|
            0 <= c < call_plan(events, hooks).len() ==> #[trigger] call_plan(
                events,
                hooks,
            )[c].event.child != child,
{
    let plan = call_plan(events, hooks);
    let n = hooks as int;
    if has_named_parent(before, child) {
        let i = choose|i: int| 0 <= i < events.len() && #[trigger] events[i].child == child;
        lemma_hook_called_once_per_event(events, hooks, i, hook);
        let c = i * hooks + hook;
        assert(plan[c].hook == hook && plan[c].event.child == child);
        assert forall|d: int|
            0 <= d < plan.len() && #[trigger] plan[d].hook == hook && plan[d].event.child
                == child implies d == c by {
            lemma_plan_position(events.len() as int, n, d);
            assert(events[d / n].child == events[i].child);
            if d / n < i {
                assert(events[d / n].child != events[i].child);
            }
            if i < d / n {
                assert(events[i].child != events[d / n].child);
            }
            assert(d % n == hook);
        }
    } else {
        assert forall|c: int| 0 <= c < plan.len() implies #[trigger] plan[c].event.child
            != child by {
            lemma_plan_position(events.len() as int, n, c);
            let e = events[c / n];
            assert(before.temp_parents.contains_key(events[c / n].child));
            if e.child == child {
                assert(holds_name(before, e.parent, before.temp_parents[child].0));
            }
        }
    }
}

} // verus!
