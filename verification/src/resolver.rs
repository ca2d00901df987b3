//! Resolution: from the interfaces a component requires to the tree of instances
//! that stand behind them.

use vstd::prelude::*;
use vstd::set_lib::lemma_len_subset;
use crate::assoc::{distinct_keys, has_key, views};
use crate::config::{
    key_of, lookup, ComponentInstance, ComponentInstanceView, ComponentInstances, ComponentMap,
    LibraryInstances, LibraryKeyView, LibraryMap,
};
use crate::declaration::{concrete_id_of, required_of};
use crate::layers::{effective, Config, ConfigView};
use crate::text::{lowercase, to_lowercase};
use crate::types::{Architecture, ArchitectureView, Module, ModuleView};

verus! {

/// What a [`ResolvedNode`] stands for in contracts.
pub struct ResolvedNodeView {
    pub concrete_id: Seq<char>,
    pub children: Seq<ResolvedNodeView>,
}

/// An instance chosen for an interface, with the instances chosen for what it
/// requires, in the order of its declaration.
#[derive(Debug, PartialEq, Eq)]
pub struct ResolvedNode {
    pub concrete_id: String,
    pub children: Vec<ResolvedNode>,
}

/// The view of a node: its identifier and the views of its children.
pub open spec fn node_view(node: ResolvedNode) -> ResolvedNodeView
    decreases node,
{
    ResolvedNodeView {
        concrete_id: node.concrete_id@,
        children: Seq::new(
            node.children@.len(),
            |i: int|
                if 0 <= i < node.children@.len() {
                    node_view(node.children@[i])
                } else {
                    arbitrary()
                },
        ),
    }
}

impl View for ResolvedNode {
    type V = ResolvedNodeView;

    open spec fn view(&self) -> ResolvedNodeView {
        node_view(*self)
    }
}

/// The views of a list of nodes, in order.
pub open spec fn nodes_view(nodes: Seq<ResolvedNode>) -> Seq<ResolvedNodeView> {
    Seq::new(nodes.len(), |i: int| nodes[i]@)
}

/// A node's children, viewed, are the views of its children.
pub proof fn lemma_node_view(node: ResolvedNode)
    ensures
        node@.concrete_id == node.concrete_id@,
        node@.children == nodes_view(node.children@),
{
}

impl Clone for ResolvedNode {
    fn clone(&self) -> (out: Self)
        ensures
            out@ == self@,
        decreases self,
    {
        let mut children: Vec<ResolvedNode> = Vec::new();
        let mut i: usize = 0;
        while i < self.children.len()
            invariant
                i <= self.children.len(),
                nodes_view(children@) == nodes_view(self.children@).take(i as int),
            decreases self.children.len() - i,
        {
            let ghost before = nodes_view(children@);
            let child = self.children[i].clone();
            children.push(child);
            assert(nodes_view(children@) =~= before.push(child@));
            i = i + 1;
        }
        let out = ResolvedNode { concrete_id: self.concrete_id.clone(), children };
        proof {
            assert(nodes_view(self.children@).take(self.children.len() as int) =~= nodes_view(
                self.children@,
            ));
            lemma_node_view(out);
            lemma_node_view(*self);
        }
        out
    }
}

/// What a [`ResolutionError`] stands for in contracts.
pub enum ResolutionErrorView {
    UnresolvedInterface(Seq<char>),
    CircularDependency(Seq<Seq<char>>),
    UnknownComponent(Seq<char>),
}

/// Why a component's requirements could not be resolved.
#[derive(Debug, PartialEq, Eq)]
pub enum ResolutionError {
    /// No instance is declared for this interface in any scope that covers the
    /// component's; the name is as written where it is required.
    UnresolvedInterface(String),
    /// An interface requires itself, directly or through others. The chain holds
    /// the interfaces from the one the component requires down to the one that
    /// closes the circle, each as written where it is required.
    CircularDependency(Vec<String>),
    /// The component has no declared scope, and the caller asked for one.
    UnknownComponent(String),
}

impl View for ResolutionError {
    type V = ResolutionErrorView;

    open spec fn view(&self) -> ResolutionErrorView {
        match self {
            ResolutionError::UnresolvedInterface(name) => ResolutionErrorView::UnresolvedInterface(
                name@,
            ),
            ResolutionError::CircularDependency(chain) => ResolutionErrorView::CircularDependency(
                chain.deep_view(),
            ),
            ResolutionError::UnknownComponent(name) => ResolutionErrorView::UnknownComponent(name@),
        }
    }
}

/// Whether the lowercase name `lowered` is that of an interface of `chain`.
pub open spec fn waiting(chain: Seq<Seq<char>>, lowered: Seq<char>) -> bool {
    exists|i: int| 0 <= i < chain.len() && lowercase(#[trigger] chain[i]) == lowered
}

/// The declarations of `table` whose interface is not in `chain`.
pub open spec fn unvisited(table: LibraryMap, chain: Seq<Seq<char>>) -> Set<LibraryKeyView> {
    table.dom().filter(|k: LibraryKeyView| !waiting(chain, k.name))
}

/// Taking up an interface that is declared and not in the chain leaves fewer
/// declarations unvisited.
pub proof fn lemma_fewer_unvisited(
    table: LibraryMap,
    arch: ArchitectureView,
    module: ModuleView,
    name: Seq<char>,
    chain: Seq<Seq<char>>,
)
    requires
        table.dom().finite(),
        !waiting(chain, lowercase(name)),
        lookup(table, lowercase(name), arch, module) is Some,
    ensures
        unvisited(table, chain.push(name)).len() < unvisited(table, chain).len(),
{
    let lowered = lowercase(name);
    let found = if table.dom().contains(key_of(lowered, arch, module)) {
        key_of(lowered, arch, module)
    } else if table.dom().contains(key_of(lowered, arch, ModuleView::Common)) {
        key_of(lowered, arch, ModuleView::Common)
    } else if table.dom().contains(key_of(lowered, ArchitectureView::Common, module)) {
        key_of(lowered, ArchitectureView::Common, module)
    } else {
        key_of(lowered, ArchitectureView::Common, ModuleView::Common)
    };
    let before = unvisited(table, chain);
    let after = unvisited(table, chain.push(name));
    lemma_len_subset(before, table.dom());
    assert forall|k: LibraryKeyView| after.contains(k) implies before.remove(found).contains(
        k,
    ) by {
        if waiting(chain, k.name) {
            let i = choose|i: int| 0 <= i < chain.len() && lowercase(#[trigger] chain[i]) == k.name;
            assert(chain.push(name)[i] == chain[i]);
        }
        if k.name == lowered {
            assert(chain.push(name)[chain.len() as int] == name);
        }
    }
    lemma_len_subset(after, before.remove(found));
}

/// The result of resolving one interface or a list of them.
pub type Resolved<T> = Result<T, ResolutionErrorView>;

/// The node that stands for the interface `name` in the scope (`arch`, `module`),
/// where `chain` holds the interfaces on the way down to it.
///
/// An interface that is in the chain closes a circle. One that no declaration
/// covers is unresolved. Else the covering declaration names the instance, and the
/// interfaces it requires are resolved below it, in order.
pub open spec fn resolution(
    table: LibraryMap,
    arch: ArchitectureView,
    module: ModuleView,
    name: Seq<char>,
    chain: Seq<Seq<char>>,
) -> Resolved<ResolvedNodeView>
    decreases unvisited(table, chain).len(), 0nat, 0nat,
    when table.dom().finite()
{
    if waiting(chain, lowercase(name)) {
        Err(ResolutionErrorView::CircularDependency(chain.push(name)))
    } else {
        match lookup(table, lowercase(name), arch, module) {
            None => Err(ResolutionErrorView::UnresolvedInterface(name)),
            Some(instance) => {
                proof {
                    lemma_fewer_unvisited(table, arch, module, name, chain);
                }
                match resolutions(
                    table,
                    arch,
                    module,
                    required_of(instance.path),
                    chain.push(name),
                ) {
                    Err(e) => Err(e),
                    Ok(children) => Ok(
                        ResolvedNodeView { concrete_id: concrete_id_of(instance.path), children },
                    ),
                }
            },
        }
    }
}

/// The nodes that stand for the interfaces `names`, resolved from the left; the
/// first that fails gives the error.
pub open spec fn resolutions(
    table: LibraryMap,
    arch: ArchitectureView,
    module: ModuleView,
    names: Seq<Seq<char>>,
    chain: Seq<Seq<char>>,
) -> Resolved<Seq<ResolvedNodeView>>
    decreases unvisited(table, chain).len(), 1nat, names.len(),
    when table.dom().finite()
{
    if names.len() == 0 {
        Ok(Seq::empty())
    } else {
        match resolution(table, arch, module, names[0], chain) {
            Err(e) => Err(e),
            Ok(first) => match resolutions(table, arch, module, names.drop_first(), chain) {
                Err(e) => Err(e),
                Ok(rest) => Ok(seq![first] + rest),
            },
        }
    }
}

/// The interfaces finished after the interface `name` is resolved, where `done` holds
/// those finished before, by their lowercase names in the order in which they were
/// finished. An interface that is finished is not taken up again; any other is
/// finished after all that its instance requires.
pub open spec fn finish_order(
    table: LibraryMap,
    arch: ArchitectureView,
    module: ModuleView,
    name: Seq<char>,
    chain: Seq<Seq<char>>,
    done: Seq<Seq<char>>,
) -> Seq<Seq<char>>
    decreases unvisited(table, chain).len(), 0nat, 0nat,
    when table.dom().finite()
{
    if done.contains(lowercase(name)) || waiting(chain, lowercase(name)) {
        done
    } else {
        match lookup(table, lowercase(name), arch, module) {
            None => done,
            Some(instance) => {
                proof {
                    lemma_fewer_unvisited(table, arch, module, name, chain);
                }
                finish_orders(
                    table,
                    arch,
                    module,
                    required_of(instance.path),
                    chain.push(name),
                    done,
                ).push(lowercase(name))
            },
        }
    }
}

/// The interfaces finished after the interfaces `names` are resolved from the left.
pub open spec fn finish_orders(
    table: LibraryMap,
    arch: ArchitectureView,
    module: ModuleView,
    names: Seq<Seq<char>>,
    chain: Seq<Seq<char>>,
    done: Seq<Seq<char>>,
) -> Seq<Seq<char>>
    decreases unvisited(table, chain).len(), 1nat, names.len(),
    when table.dom().finite()
{
    if names.len() == 0 {
        done
    } else {
        finish_orders(
            table,
            arch,
            module,
            names.drop_first(),
            chain,
            finish_order(table, arch, module, names[0], chain, done),
        )
    }
}

/// Whether `node` is the tree of the interface with the lowercase name `lowered`: it
/// names the instance that the scope's lookup finds for the interface, and its
/// children are, in order, the trees of the interfaces that the instance requires.
pub open spec fn stands_for(
    table: LibraryMap,
    arch: ArchitectureView,
    module: ModuleView,
    lowered: Seq<char>,
    node: ResolvedNodeView,
) -> bool
    decreases node,
{
    match lookup(table, lowered, arch, module) {
        None => false,
        Some(instance) => {
            let required = required_of(instance.path);
            &&& node.concrete_id == concrete_id_of(instance.path)
            &&& node.children.len() == required.len()
            &&& forall|i: int|
                0 <= i < node.children.len() ==> stands_for(
                    table,
                    arch,
                    module,
                    lowercase(required[i]),
                    #[trigger] node.children[i],
                )
        },
    }
}

/// A resolved interface has its tree: the node names the instance found for it, and
/// has one child for each interface that the instance requires, the child being that
/// interface's tree.
pub proof fn lemma_resolution_stands(
    table: LibraryMap,
    arch: ArchitectureView,
    module: ModuleView,
    name: Seq<char>,
    chain: Seq<Seq<char>>,
)
    requires
        table.dom().finite(),
        resolution(table, arch, module, name, chain) is Ok,
    ensures
        stands_for(
            table,
            arch,
            module,
            lowercase(name),
            resolution(table, arch, module, name, chain)->Ok_0,
        ),
    decreases unvisited(table, chain).len(), 0nat, 0nat,
{
    let instance = lookup(table, lowercase(name), arch, module)->Some_0;
    lemma_fewer_unvisited(table, arch, module, name, chain);
    lemma_resolutions_stand(table, arch, module, required_of(instance.path), chain.push(name));
}

/// Resolved interfaces have their trees, one for each, in order.
pub proof fn lemma_resolutions_stand(
    table: LibraryMap,
    arch: ArchitectureView,
    module: ModuleView,
    names: Seq<Seq<char>>,
    chain: Seq<Seq<char>>,
)
    requires
        table.dom().finite(),
        resolutions(table, arch, module, names, chain) is Ok,
    ensures
        resolutions(table, arch, module, names, chain)->Ok_0.len() == names.len(),
        forall|i: int|
            0 <= i < names.len() ==> stands_for(
                table,
                arch,
                module,
                lowercase(names[i]),
                #[trigger] resolutions(table, arch, module, names, chain)->Ok_0[i],
            ),
    decreases unvisited(table, chain).len(), 1nat, names.len(),
{
    if names.len() > 0 {
        let nodes = resolutions(table, arch, module, names, chain)->Ok_0;
        let rest = resolutions(table, arch, module, names.drop_first(), chain)->Ok_0;
        lemma_resolution_stands(table, arch, module, names[0], chain);
        lemma_resolutions_stand(table, arch, module, names.drop_first(), chain);
        assert forall|i: int| 0 <= i < names.len() implies stands_for(
            table,
            arch,
            module,
            lowercase(names[i]),
            #[trigger] nodes[i],
        ) by {
            if i > 0 {
                assert(nodes[i] == rest[i - 1]);
                assert(names.drop_first()[i - 1] == names[i]);
            }
        }
    }
}

/// An interface has one tree.
pub proof fn lemma_one_tree(
    table: LibraryMap,
    arch: ArchitectureView,
    module: ModuleView,
    lowered: Seq<char>,
    a: ResolvedNodeView,
    b: ResolvedNodeView,
)
    requires
        stands_for(table, arch, module, lowered, a),
        stands_for(table, arch, module, lowered, b),
    ensures
        a == b,
    decreases a,
{
    let instance = lookup(table, lowered, arch, module)->Some_0;
    let required = required_of(instance.path);
    assert forall|i: int| 0 <= i < a.children.len() implies a.children[i] == b.children[i] by {
        lemma_one_tree(table, arch, module, lowercase(required[i]), a.children[i], b.children[i]);
    }
    assert(a.children =~= b.children);
}

/// An interface resolves to the same node wherever it is required: under whatever
/// chains two requirements of it are resolved, and in whatever case they are
/// written, the two nodes are equal, children and all.
pub proof fn lemma_shared_node(
    table: LibraryMap,
    arch: ArchitectureView,
    module: ModuleView,
    name: Seq<char>,
    chain: Seq<Seq<char>>,
    again: Seq<char>,
    other_chain: Seq<Seq<char>>,
)
    requires
        table.dom().finite(),
        lowercase(name) == lowercase(again),
        resolution(table, arch, module, name, chain) is Ok,
        resolution(table, arch, module, again, other_chain) is Ok,
    ensures
        resolution(table, arch, module, name, chain) == resolution(
            table,
            arch,
            module,
            again,
            other_chain,
        ),
{
    lemma_resolution_stands(table, arch, module, name, chain);
    lemma_resolution_stands(table, arch, module, again, other_chain);
    lemma_one_tree(
        table,
        arch,
        module,
        lowercase(name),
        resolution(table, arch, module, name, chain)->Ok_0,
        resolution(table, arch, module, again, other_chain)->Ok_0,
    );
}

/// Where two of the resolved interfaces require the same interface, the two children
/// that stand for it are equal, and each is that interface's tree.
pub proof fn lemma_shared_children(
    table: LibraryMap,
    arch: ArchitectureView,
    module: ModuleView,
    names: Seq<Seq<char>>,
    chain: Seq<Seq<char>>,
    a: int,
    i: int,
    c: int,
    j: int,
)
    requires
        table.dom().finite(),
        resolutions(table, arch, module, names, chain) is Ok,
        0 <= a < names.len(),
        0 <= c < names.len(),
        lookup(table, lowercase(names[a]), arch, module) is Some,
        lookup(table, lowercase(names[c]), arch, module) is Some,
        0 <= i < required_of(lookup(table, lowercase(names[a]), arch, module)->Some_0.path).len(),
        0 <= j < required_of(lookup(table, lowercase(names[c]), arch, module)->Some_0.path).len(),
        lowercase(required_of(lookup(table, lowercase(names[a]), arch, module)->Some_0.path)[i])
            == lowercase(
            required_of(lookup(table, lowercase(names[c]), arch, module)->Some_0.path)[j],
        ),
    ensures
        ({
            let nodes = resolutions(table, arch, module, names, chain)->Ok_0;
            let shared = lowercase(
                required_of(lookup(table, lowercase(names[a]), arch, module)->Some_0.path)[i],
            );
            &&& nodes.len() == names.len()
            &&& i < nodes[a].children.len()
            &&& j < nodes[c].children.len()
            &&& nodes[a].children[i] == nodes[c].children[j]
            &&& stands_for(table, arch, module, shared, nodes[a].children[i])
        }),
{
    let nodes = resolutions(table, arch, module, names, chain)->Ok_0;
    let shared = lowercase(
        required_of(lookup(table, lowercase(names[a]), arch, module)->Some_0.path)[i],
    );
    lemma_resolutions_stand(table, arch, module, names, chain);
    lemma_one_tree(table, arch, module, shared, nodes[a].children[i], nodes[c].children[j]);
}

/// Whether the instance found for the interface `name` requires the interface
/// `required`, as written.
pub open spec fn requires_directly(
    table: LibraryMap,
    arch: ArchitectureView,
    module: ModuleView,
    name: Seq<char>,
    required: Seq<char>,
) -> bool {
    lookup(table, lowercase(name), arch, module) matches Some(instance) && required_of(
        instance.path,
    ).contains(required)
}

/// Whether `circle` is a chain that closes a circle below `chain`: it begins with
/// `chain`, each interface after that is required by the one before it, and the last
/// is, by its lowercase name, one of those before it.
pub open spec fn closes_circle(
    table: LibraryMap,
    arch: ArchitectureView,
    module: ModuleView,
    chain: Seq<Seq<char>>,
    circle: Seq<Seq<char>>,
) -> bool {
    &&& circle.len() > chain.len()
    &&& circle.take(chain.len() as int) == chain
    &&& forall|k: int|
        chain.len() <= k < circle.len() - 1 ==> requires_directly(
            table,
            arch,
            module,
            #[trigger] circle[k],
            circle[k + 1],
        )
    &&& waiting(circle.drop_last(), lowercase(circle.last()))
}

/// What an error of a resolution says is so: an unresolved interface has no
/// declaration that covers the scope, and a circle is a chain of requirements from
/// the interface at work back into the chain. No resolution fails for the want of a
/// component's scope.
pub open spec fn error_is_sound(
    table: LibraryMap,
    arch: ArchitectureView,
    module: ModuleView,
    chain: Seq<Seq<char>>,
    error: ResolutionErrorView,
) -> bool {
    match error {
        ResolutionErrorView::UnresolvedInterface(name) => lookup(
            table,
            lowercase(name),
            arch,
            module,
        ) is None,
        ResolutionErrorView::CircularDependency(circle) => closes_circle(
            table,
            arch,
            module,
            chain,
            circle,
        ),
        ResolutionErrorView::UnknownComponent(_) => false,
    }
}

/// The error of an interface that is not resolved is sound, and a circle it reports
/// leads on from the interface itself.
pub proof fn lemma_resolution_error(
    table: LibraryMap,
    arch: ArchitectureView,
    module: ModuleView,
    name: Seq<char>,
    chain: Seq<Seq<char>>,
)
    requires
        table.dom().finite(),
        resolution(table, arch, module, name, chain) is Err,
    ensures
        error_is_sound(
            table,
            arch,
            module,
            chain,
            resolution(table, arch, module, name, chain)->Err_0,
        ),
        resolution(table, arch, module, name, chain)->Err_0 matches ResolutionErrorView::CircularDependency(
            circle,
        ) ==> circle[chain.len() as int] == name,
    decreases unvisited(table, chain).len(), 0nat, 0nat,
{
    let error = resolution(table, arch, module, name, chain)->Err_0;
    if waiting(chain, lowercase(name)) {
        let circle = chain.push(name);
        assert(circle.take(chain.len() as int) =~= chain);
        assert(circle.drop_last() =~= chain);
    } else if lookup(table, lowercase(name), arch, module) is Some {
        let instance = lookup(table, lowercase(name), arch, module)->Some_0;
        let longer = chain.push(name);
        lemma_fewer_unvisited(table, arch, module, name, chain);
        lemma_resolutions_error(table, arch, module, required_of(instance.path), longer);
        if error is CircularDependency {
            let circle = error->CircularDependency_0;
            assert(circle.take(chain.len() as int) =~= longer.take(chain.len() as int));
            assert(longer.take(chain.len() as int) =~= chain);
            assert(circle[chain.len() as int] == circle.take(longer.len() as int)[chain.len() as int]);
            assert forall|k: int| chain.len() <= k < circle.len() - 1 implies requires_directly(
                table,
                arch,
                module,
                #[trigger] circle[k],
                circle[k + 1],
            ) by {
                if k == chain.len() {
                    assert(circle[k] == name);
                }
            }
        }
    }
}

/// The error of a list of interfaces that is not resolved is sound, and a circle it
/// reports leads on from one of the interfaces.
pub proof fn lemma_resolutions_error(
    table: LibraryMap,
    arch: ArchitectureView,
    module: ModuleView,
    names: Seq<Seq<char>>,
    chain: Seq<Seq<char>>,
)
    requires
        table.dom().finite(),
        resolutions(table, arch, module, names, chain) is Err,
    ensures
        error_is_sound(
            table,
            arch,
            module,
            chain,
            resolutions(table, arch, module, names, chain)->Err_0,
        ),
        resolutions(table, arch, module, names, chain)->Err_0 matches ResolutionErrorView::CircularDependency(
            circle,
        ) ==> names.contains(circle[chain.len() as int]),
    decreases unvisited(table, chain).len(), 1nat, names.len(),
{
    if names.len() > 0 {
        if resolution(table, arch, module, names[0], chain) is Err {
            lemma_resolution_error(table, arch, module, names[0], chain);
        } else {
            let rest = names.drop_first();
            lemma_resolutions_error(table, arch, module, rest, chain);
            let error = resolutions(table, arch, module, names, chain)->Err_0;
            if error is CircularDependency {
                let circle = error->CircularDependency_0;
                let i = choose|i: int| 0 <= i < rest.len() && rest[i] == circle[chain.len() as int];
                assert(names[i + 1] == circle[chain.len() as int]);
            }
        }
    }
}

/// A list of interfaces fails with the error of the first of them that fails.
pub proof fn lemma_first_failure(
    table: LibraryMap,
    arch: ArchitectureView,
    module: ModuleView,
    names: Seq<Seq<char>>,
    chain: Seq<Seq<char>>,
    i: int,
)
    requires
        table.dom().finite(),
        0 <= i < names.len(),
        resolution(table, arch, module, names[i], chain) is Err,
        forall|j: int| 0 <= j < i ==> resolution(table, arch, module, #[trigger] names[j], chain) is Ok,
    ensures
        resolutions(table, arch, module, names, chain) == Err::<Seq<ResolvedNodeView>, _>(
            resolution(table, arch, module, names[i], chain)->Err_0,
        ),
    decreases names.len(),
{
    if i > 0 {
        let rest = names.drop_first();
        assert(rest[i - 1] == names[i]);
        assert forall|j: int| 0 <= j < i - 1 implies resolution(
            table,
            arch,
            module,
            #[trigger] rest[j],
            chain,
        ) is Ok by {
            assert(rest[j] == names[j + 1]);
        }
        lemma_first_failure(table, arch, module, rest, chain, i - 1);
        assert(resolution(table, arch, module, names[0], chain) is Ok);
    }
}

/// A list of interfaces of which one fails is not resolved.
pub proof fn lemma_any_failure(
    table: LibraryMap,
    arch: ArchitectureView,
    module: ModuleView,
    names: Seq<Seq<char>>,
    chain: Seq<Seq<char>>,
    i: int,
)
    requires
        table.dom().finite(),
        0 <= i < names.len(),
        resolution(table, arch, module, names[i], chain) is Err,
    ensures
        resolutions(table, arch, module, names, chain) is Err,
    decreases names.len(),
{
    if i > 0 {
        let rest = names.drop_first();
        lemma_any_failure(table, arch, module, rest, chain, i - 1);
    }
}

/// Two interfaces of which each requires the other first close a circle: resolving
/// the one fails with the chain that leads from it to the other and back.
pub proof fn lemma_circle_of_two(
    table: LibraryMap,
    arch: ArchitectureView,
    module: ModuleView,
    first: Seq<char>,
    second: Seq<char>,
    back: Seq<char>,
)
    requires
        table.dom().finite(),
        lowercase(first) != lowercase(second),
        lowercase(back) == lowercase(first),
        lookup(table, lowercase(first), arch, module) matches Some(instance) && required_of(
            instance.path,
        ).len() > 0 && required_of(instance.path)[0] == second,
        lookup(table, lowercase(second), arch, module) matches Some(instance) && required_of(
            instance.path,
        ).len() > 0 && required_of(instance.path)[0] == back,
    ensures
        resolution(table, arch, module, first, Seq::empty())
            == Err::<ResolvedNodeView, _>(
            ResolutionErrorView::CircularDependency(seq![first, second, back]),
        ),
{
    let none = Seq::<Seq<char>>::empty();
    let one = none.push(first);
    let two = one.push(second);
    let circle = ResolutionErrorView::CircularDependency(seq![first, second, back]);
    let of_first = required_of(lookup(table, lowercase(first), arch, module)->Some_0.path);
    let of_second = required_of(lookup(table, lowercase(second), arch, module)->Some_0.path);
    assert(two.push(back) =~= seq![first, second, back]);
    assert(waiting(two, lowercase(back))) by {
        assert(lowercase(two[0]) == lowercase(back));
    }
    assert(resolution(table, arch, module, back, two) == Err::<ResolvedNodeView, _>(circle));
    lemma_first_failure(table, arch, module, of_second, two, 0);
    assert(!waiting(one, lowercase(second))) by {
        if waiting(one, lowercase(second)) {
            let i = choose|i: int| 0 <= i < one.len() && lowercase(#[trigger] one[i]) == lowercase(second);
            assert(one[i] == first);
        }
    }
    assert(resolution(table, arch, module, second, one) == Err::<ResolvedNodeView, _>(circle));
    lemma_first_failure(table, arch, module, of_first, one, 0);
    assert(!waiting(none, lowercase(first)));
    assert(resolution(table, arch, module, first, none) == Err::<ResolvedNodeView, _>(circle));
}

/// A component that requires an interface of such a circle is not resolved; and
/// where what it requires before that interface resolves, it fails with the circle.
pub proof fn lemma_requiring_circle(
    table: LibraryMap,
    arch: ArchitectureView,
    module: ModuleView,
    names: Seq<Seq<char>>,
    i: int,
    second: Seq<char>,
    back: Seq<char>,
)
    requires
        table.dom().finite(),
        0 <= i < names.len(),
        lowercase(names[i]) != lowercase(second),
        lowercase(back) == lowercase(names[i]),
        lookup(table, lowercase(names[i]), arch, module) matches Some(instance) && required_of(
            instance.path,
        ).len() > 0 && required_of(instance.path)[0] == second,
        lookup(table, lowercase(second), arch, module) matches Some(instance) && required_of(
            instance.path,
        ).len() > 0 && required_of(instance.path)[0] == back,
    ensures
        resolutions(table, arch, module, names, Seq::empty()) is Err,
        (forall|j: int|
            0 <= j < i ==> resolution(table, arch, module, #[trigger] names[j], Seq::empty()) is Ok)
            ==> resolutions(table, arch, module, names, Seq::empty()) == Err::<
            Seq<ResolvedNodeView>,
            _,
        >(ResolutionErrorView::CircularDependency(seq![names[i], second, back])),
{
    lemma_circle_of_two(table, arch, module, names[i], second, back);
    lemma_any_failure(table, arch, module, names, Seq::empty(), i);
    if forall|j: int|
        0 <= j < i ==> resolution(table, arch, module, #[trigger] names[j], Seq::empty()) is Ok {
        lemma_first_failure(table, arch, module, names, Seq::empty(), i);
    }
}

/// The finished interfaces as contracts see them: lowercase names with their nodes,
/// in the order in which they were finished.
pub type Finished = Seq<(Seq<char>, ResolvedNodeView)>;

/// The lowercase names of the finished interfaces, in order.
pub open spec fn finished_names(done: Finished) -> Seq<Seq<char>> {
    Seq::new(done.len(), |i: int| done[i].0)
}

/// Whether `(key, node)` stands among the first `j` finished interfaces.
pub open spec fn earlier(done: Finished, j: int, key: Seq<char>, node: ResolvedNodeView) -> bool {
    exists|p: int| 0 <= p < j && p < done.len() && #[trigger] done[p] == (key, node)
}

/// Whether the `j`-th finished interface is finished rightly: its node names the
/// instance that the table declares for it, and the node's children are the nodes
/// of interfaces finished before it, those that the instance requires, in order.
pub open spec fn settled(
    table: LibraryMap,
    arch: ArchitectureView,
    module: ModuleView,
    done: Finished,
    j: int,
) -> bool {
    match lookup(table, done[j].0, arch, module) {
        None => false,
        Some(instance) => {
            let required = required_of(instance.path);
            let node = done[j].1;
            &&& node.concrete_id == concrete_id_of(instance.path)
            &&& node.children.len() == required.len()
            &&& forall|i: int|
                0 <= i < required.len() ==> earlier(
                    done,
                    j,
                    lowercase(#[trigger] required[i]),
                    node.children[i],
                )
        },
    }
}

/// What was finished rightly stays so when more is finished after it.
pub proof fn lemma_settled_stays(
    table: LibraryMap,
    arch: ArchitectureView,
    module: ModuleView,
    done: Finished,
    more: Finished,
    j: int,
)
    requires
        0 <= j < done.len() <= more.len(),
        forall|p: int| 0 <= p < done.len() ==> more[p] == done[p],
        settled(table, arch, module, done, j),
    ensures
        settled(table, arch, module, more, j),
{
    let instance = lookup(table, done[j].0, arch, module)->Some_0;
    let required = required_of(instance.path);
    let node = done[j].1;
    assert forall|i: int| 0 <= i < required.len() implies earlier(
        more,
        j,
        lowercase(#[trigger] required[i]),
        node.children[i],
    ) by {
        let key = lowercase(required[i]);
        assert(earlier(done, j, key, node.children[i]));
        let p = choose|p: int|
            0 <= p < j && p < done.len() && #[trigger] done[p] == (key, node.children[i]);
        assert(more[p] == (key, node.children[i]));
    }
}

/// An interface that was finished resolves to its node, under every chain that
/// holds none of the interfaces finished up to it.
pub proof fn lemma_finished_resolution(
    table: LibraryMap,
    arch: ArchitectureView,
    module: ModuleView,
    done: Finished,
    j: int,
    name: Seq<char>,
    chain: Seq<Seq<char>>,
)
    requires
        table.dom().finite(),
        distinct_keys(done),
        0 <= j < done.len(),
        forall|p: int| 0 <= p <= j ==> settled(table, arch, module, done, p),
        forall|p: int| 0 <= p <= j ==> !waiting(chain, (#[trigger] done[p]).0),
        lowercase(name) == done[j].0,
    ensures
        resolution(table, arch, module, name, chain) == Ok::<_, ResolutionErrorView>(done[j].1),
    decreases j, 1nat, 0nat,
{
    assert(settled(table, arch, module, done, j));
    assert(!waiting(chain, done[j].0));
    let instance = lookup(table, done[j].0, arch, module)->Some_0;
    let longer = chain.push(name);
    assert forall|p: int| 0 <= p < j implies !waiting(longer, (#[trigger] done[p]).0) by {
        if waiting(longer, done[p].0) {
            let i = choose|i: int|
                0 <= i < longer.len() && lowercase(#[trigger] longer[i]) == done[p].0;
            if i < chain.len() {
                assert(longer[i] == chain[i]);
                assert(waiting(chain, done[p].0));
            } else {
                assert(done[p].0 != done[j].0);
            }
        }
    }
    lemma_finished_resolutions(
        table,
        arch,
        module,
        done,
        j,
        required_of(instance.path),
        done[j].1.children,
        longer,
    );
}

/// Interfaces that were all finished resolve to their nodes, under every chain that
/// holds none of the interfaces finished before the `j`-th.
pub proof fn lemma_finished_resolutions(
    table: LibraryMap,
    arch: ArchitectureView,
    module: ModuleView,
    done: Finished,
    j: int,
    names: Seq<Seq<char>>,
    nodes: Seq<ResolvedNodeView>,
    chain: Seq<Seq<char>>,
)
    requires
        table.dom().finite(),
        distinct_keys(done),
        0 <= j <= done.len(),
        forall|p: int| 0 <= p < j ==> settled(table, arch, module, done, p),
        forall|p: int| 0 <= p < j ==> !waiting(chain, (#[trigger] done[p]).0),
        names.len() == nodes.len(),
        forall|i: int|
            0 <= i < names.len() ==> earlier(done, j, lowercase(#[trigger] names[i]), nodes[i]),
    ensures
        resolutions(table, arch, module, names, chain) == Ok::<_, ResolutionErrorView>(nodes),
    decreases j, 0nat, names.len(),
{
    if names.len() == 0 {
        assert(nodes =~= Seq::empty());
    } else {
        let key = lowercase(names[0]);
        assert(earlier(done, j, key, nodes[0]));
        let p = choose|p: int| 0 <= p < j && p < done.len() && #[trigger] done[p] == (key, nodes[0]);
        lemma_finished_resolution(table, arch, module, done, p, names[0], chain);
        let rest = names.drop_first();
        assert forall|i: int| 0 <= i < rest.len() implies earlier(
            done,
            j,
            lowercase(#[trigger] rest[i]),
            nodes.drop_first()[i],
        ) by {
            assert(rest[i] == names[i + 1]);
            assert(nodes.drop_first()[i] == nodes[i + 1]);
        }
        lemma_finished_resolutions(table, arch, module, done, j, rest, nodes.drop_first(), chain);
        assert(seq![nodes[0]] + nodes.drop_first() =~= nodes);
    }
}

/// `front`, followed by what `rest` resolved to.
pub open spec fn followed_by(front: Seq<ResolvedNodeView>, rest: Resolved<Seq<ResolvedNodeView>>)
    -> Resolved<Seq<ResolvedNodeView>> {
    match rest {
        Ok(nodes) => Ok(front + nodes),
        Err(e) => Err(e),
    }
}

/// The memo of a run: which interfaces are in progress, and which are done.
struct Memo {
    /// The interfaces in progress, from the one the component requires down to the
    /// one at work, as written.
    chain: Vec<String>,
    /// The same interfaces, in lowercase.
    active: Vec<String>,
    /// The finished interfaces, in lowercase, with their nodes, in the order in
    /// which they were finished.
    done: Vec<(String, ResolvedNode)>,
}

/// The views of the finished interfaces.
spec fn finished(done: Seq<(String, ResolvedNode)>) -> Finished {
    Seq::new(done.len(), |i: int| (done[i].0@, done[i].1@))
}

impl Memo {
    /// The finished interfaces.
    spec fn done_view(&self) -> Finished {
        finished(self.done@)
    }

    /// The chain, as written.
    spec fn chain_view(&self) -> Seq<Seq<char>> {
        self.chain.deep_view()
    }

    /// What holds of a resolution between two steps: every interface is finished
    /// once and rightly, and none that is finished is in the chain.
    spec fn wf(&self, table: LibraryMap, arch: ArchitectureView, module: ModuleView) -> bool {
        &&& self.active.len() == self.chain.len()
        &&& forall|i: int|
            0 <= i < self.chain.len() ==> (#[trigger] self.active[i])@ == lowercase(self.chain[i]@)
        &&& distinct_keys(self.done_view())
        &&& forall|j: int|
            0 <= j < self.done.len() ==> settled(table, arch, module, self.done_view(), j)
        &&& forall|j: int|
            0 <= j < self.done.len() ==> !waiting(
                self.chain_view(),
                (#[trigger] self.done_view()[j]).0,
            )
    }

    /// Whether `self` finished what `before` had finished, and kept its chain.
    spec fn extends(&self, before: &Memo) -> bool {
        &&& self.chain_view() == before.chain_view()
        &&& self.active.len() == before.active.len()
        &&& before.done.len() <= self.done.len()
        &&& forall|p: int|
            0 <= p < before.done.len() ==> self.done_view()[p] == before.done_view()[p]
    }

    /// The place of the lowercase name `lowered` among the finished interfaces.
    fn done_place(&self, lowered: &String) -> (out: Option<usize>)
        ensures
            match out {
                Some(p) => p < self.done.len() && self.done_view()[p as int].0 == lowered@,
                None => !has_key(self.done_view(), lowered@),
            },
    {
        let mut p: usize = 0;
        while p < self.done.len()
            invariant
                p <= self.done.len(),
                forall|q: int| 0 <= q < p ==> (#[trigger] self.done_view()[q]).0 != lowered@,
            decreases self.done.len() - p,
        {
            if self.done[p].0 == *lowered {
                return Some(p);
            }
            p = p + 1;
        }
        None
    }

    /// Whether the lowercase name `lowered` is that of an interface of the chain.
    fn is_waiting(&self, lowered: &String) -> (out: bool)
        requires
            self.active.len() == self.chain.len(),
            forall|i: int|
                0 <= i < self.chain.len() ==> (#[trigger] self.active[i])@ == lowercase(
                    self.chain[i]@,
                ),
        ensures
            out == waiting(self.chain_view(), lowered@),
    {
        let mut i: usize = 0;
        while i < self.active.len()
            invariant
                i <= self.active.len(),
                self.active.len() == self.chain.len(),
                forall|q: int|
                    0 <= q < self.chain.len() ==> (#[trigger] self.active[q])@ == lowercase(
                        self.chain[q]@,
                    ),
                forall|q: int| 0 <= q < i ==> lowercase(#[trigger] self.chain_view()[q]) != lowered@,
            decreases self.active.len() - i,
        {
            if self.active[i] == *lowered {
                assert(lowercase(self.chain_view()[i as int]) == lowered@);
                return true;
            }
            i = i + 1;
        }
        false
    }
}

/// A copy of a list of names.
fn copy_names(names: &Vec<String>) -> (out: Vec<String>)
    ensures
        out.deep_view() == names.deep_view(),
{
    let mut out: Vec<String> = Vec::new();
    let mut i: usize = 0;
    while i < names.len()
        invariant
            i <= names.len(),
            out.deep_view() == names.deep_view().take(i as int),
        decreases names.len() - i,
    {
        let ghost before = out.deep_view();
        let name = names[i].clone();
        out.push(name);
        assert(out.deep_view() =~= before.push(name@));
        i = i + 1;
    }
    out
}

/// Resolves one interface: a finished one is taken as it was finished, one in the
/// chain closes a circle, and any other is looked up, resolved below, and finished.
fn resolve_one(
    table: &LibraryInstances,
    arch: &Architecture,
    module: &Module,
    name: &String,
    memo: &mut Memo,
) -> (out: Result<ResolvedNode, ResolutionError>)
    requires
        old(memo).wf(table@, arch@, module@),
    ensures
        match resolution(table@, arch@, module@, name@, old(memo).chain_view()) {
            Ok(node) => {
                &&& out matches Ok(o)
                &&& o@ == node
                &&& final(memo).wf(table@, arch@, module@)
                &&& final(memo).extends(old(memo))
                &&& earlier(
                    final(memo).done_view(),
                    final(memo).done.len() as int,
                    lowercase(name@),
                    node,
                )
                &&& finished_names(final(memo).done_view()) == finish_order(
                    table@,
                    arch@,
                    module@,
                    name@,
                    old(memo).chain_view(),
                    finished_names(old(memo).done_view()),
                )
            },
            Err(e) => out matches Err(o) && o@ == e,
        },
    decreases unvisited(table@, old(memo).chain_view()).len(), 0nat, 0nat,
{
    proof {
        table.lemma_finite();
    }
    let ghost chain = memo.chain_view();
    let lowered = to_lowercase(name.as_str());
    if let Some(p) = memo.done_place(&lowered) {
        proof {
            assert(finished_names(memo.done_view())[p as int] == lowered@);
            lemma_finished_resolution(
                table@,
                arch@,
                module@,
                memo.done_view(),
                p as int,
                name@,
                chain,
            );
        }
        return Ok(memo.done[p].1.clone());
    }
    proof {
        let names = finished_names(memo.done_view());
        if names.contains(lowered@) {
            let p = choose|p: int| 0 <= p < names.len() && names[p] == lowered@;
            assert(memo.done_view()[p].0 == lowered@);
        }
    }
    if memo.is_waiting(&lowered) {
        let mut circle = copy_names(&memo.chain);
        circle.push(name.clone());
        assert(circle.deep_view() =~= chain.push(name@));
        return Err(ResolutionError::CircularDependency(circle));
    }
    match table.find(&lowered, arch, module) {
        None => Err(ResolutionError::UnresolvedInterface(name.clone())),
        Some(instance) => {
            let required = instance.required_interfaces();
            let concrete_id = instance.concrete_id();
            let ghost start = *memo;
            memo.chain.push(name.clone());
            memo.active.push(lowered.clone());
            proof {
                lemma_fewer_unvisited(table@, arch@, module@, name@, chain);
                assert(memo.chain_view() =~= chain.push(name@));
                assert(memo.done_view() == start.done_view());
                assert forall|j: int| 0 <= j < memo.done.len() implies !waiting(
                    memo.chain_view(),
                    (#[trigger] memo.done_view()[j]).0,
                ) by {
                    let key = memo.done_view()[j].0;
                    if waiting(memo.chain_view(), key) {
                        let i = choose|i: int|
                            0 <= i < memo.chain_view().len() && lowercase(
                                #[trigger] memo.chain_view()[i],
                            ) == key;
                        if i < chain.len() {
                            assert(memo.chain_view()[i] == chain[i]);
                            assert(waiting(chain, key));
                        }
                    }
                }
            }
            let children = match resolve_all(table, arch, module, &required, memo) {
                Ok(children) => children,
                Err(e) => {
                    return Err(e);
                },
            };
            let ghost below = *memo;
            memo.chain.pop();
            memo.active.pop();
            let node = ResolvedNode { concrete_id, children };
            let kept = node.clone();
            memo.done.push((lowered, kept));
            proof {
                let done = memo.done_view();
                let last = below.done.len() as int;
                lemma_node_view(node);
                assert(below.chain_view() == chain.push(name@));
                assert(below.chain.len() == chain.len() + 1);
                assert(memo.chain@ =~= below.chain@.drop_last());
                assert(memo.chain_view() =~= below.chain_view().drop_last());
                assert(memo.chain_view() =~= chain);
                assert(done =~= below.done_view().push((lowercase(name@), node@)));
                assert(waiting(below.chain_view(), lowercase(name@))) by {
                    assert(below.chain_view()[chain.len() as int] == name@);
                }
                assert(!has_key(below.done_view(), lowercase(name@)));
                assert(distinct_keys(done));
                assert forall|j: int| 0 <= j < memo.done.len() implies settled(
                    table@,
                    arch@,
                    module@,
                    done,
                    j,
                ) by {
                    if j < last {
                        lemma_settled_stays(table@, arch@, module@, below.done_view(), done, j);
                    } else {
                        assert forall|i: int| 0 <= i < required.deep_view().len() implies earlier(
                            done,
                            j,
                            lowercase(#[trigger] required.deep_view()[i]),
                            node@.children[i],
                        ) by {
                            let key = lowercase(required.deep_view()[i]);
                            assert(earlier(below.done_view(), last, key, node@.children[i]));
                            let p = choose|p: int|
                                0 <= p < last && p < below.done_view().len()
                                    && #[trigger] below.done_view()[p] == (key, node@.children[i]);
                            assert(done[p] == (key, node@.children[i]));
                        }
                    }
                }
                assert forall|j: int| 0 <= j < memo.done.len() implies !waiting(
                    memo.chain_view(),
                    (#[trigger] done[j]).0,
                ) by {
                    if j < last {
                        let key = below.done_view()[j].0;
                        if waiting(chain, key) {
                            let i = choose|i: int|
                                0 <= i < chain.len() && lowercase(#[trigger] chain[i]) == key;
                            assert(below.chain_view()[i] == chain[i]);
                            assert(waiting(below.chain_view(), key));
                        }
                    }
                }
                assert(done[last] == (lowercase(name@), node@));
                assert(finished_names(done) =~= finished_names(below.done_view()).push(
                    lowercase(name@),
                ));
            }
            Ok(node)
        },
    }
}

/// Resolves a list of interfaces from the left, and stops at the first that fails.
fn resolve_all(
    table: &LibraryInstances,
    arch: &Architecture,
    module: &Module,
    names: &Vec<String>,
    memo: &mut Memo,
) -> (out: Result<Vec<ResolvedNode>, ResolutionError>)
    requires
        old(memo).wf(table@, arch@, module@),
    ensures
        match resolutions(table@, arch@, module@, names.deep_view(), old(memo).chain_view()) {
            Ok(nodes) => {
                &&& out matches Ok(o)
                &&& nodes_view(o@) == nodes
                &&& nodes.len() == names.len()
                &&& final(memo).wf(table@, arch@, module@)
                &&& final(memo).extends(old(memo))
                &&& forall|i: int|
                    0 <= i < names.len() ==> earlier(
                        final(memo).done_view(),
                        final(memo).done.len() as int,
                        lowercase(#[trigger] names.deep_view()[i]),
                        nodes[i],
                    )
                &&& finished_names(final(memo).done_view()) == finish_orders(
                    table@,
                    arch@,
                    module@,
                    names.deep_view(),
                    old(memo).chain_view(),
                    finished_names(old(memo).done_view()),
                )
            },
            Err(e) => out matches Err(o) && o@ == e,
        },
    decreases unvisited(table@, old(memo).chain_view()).len(), 1nat, names.len(),
{
    proof {
        table.lemma_finite();
    }
    let ghost chain = memo.chain_view();
    let ghost all = names.deep_view();
    let mut nodes: Vec<ResolvedNode> = Vec::new();
    let mut i: usize = 0;
    proof {
        assert(nodes_view(nodes@) =~= Seq::empty());
        assert(all.skip(0) =~= all);
        assert(Seq::<ResolvedNodeView>::empty() + resolutions(
            table@,
            arch@,
            module@,
            all,
            chain,
        )->Ok_0 =~= resolutions(table@, arch@, module@, all, chain)->Ok_0);
    }
    while i < names.len()
        invariant
            i <= names.len(),
            all == names.deep_view(),
            table@.dom().finite(),
            chain == old(memo).chain_view(),
            memo.wf(table@, arch@, module@),
            memo.extends(old(memo)),
            nodes.len() == i,
            resolutions(table@, arch@, module@, all, chain) == followed_by(
                nodes_view(nodes@),
                resolutions(table@, arch@, module@, all.skip(i as int), chain),
            ),
            finish_orders(
                table@,
                arch@,
                module@,
                all,
                chain,
                finished_names(old(memo).done_view()),
            ) == finish_orders(
                table@,
                arch@,
                module@,
                all.skip(i as int),
                chain,
                finished_names(memo.done_view()),
            ),
            forall|q: int|
                0 <= q < i ==> earlier(
                    memo.done_view(),
                    memo.done.len() as int,
                    lowercase(#[trigger] all[q]),
                    nodes_view(nodes@)[q],
                ),
        decreases names.len() - i,
    {
        let ghost before = *memo;
        let ghost front = nodes_view(nodes@);
        proof {
            assert(all.skip(i as int)[0] == all[i as int]);
            assert(all.skip(i as int).drop_first() =~= all.skip(i + 1));
            assert(all[i as int] == names[i as int]@);
        }
        match resolve_one(table, arch, module, &names[i], memo) {
            Err(e) => {
                return Err(e);
            },
            Ok(node) => {
                nodes.push(node);
                proof {
                    assert(nodes_view(nodes@) =~= front.push(node@));
                    let rest = resolutions(table@, arch@, module@, all.skip(i + 1), chain);
                    if rest is Ok {
                        assert(front + (seq![node@] + rest->Ok_0) =~= front.push(node@)
                            + rest->Ok_0);
                    }
                    assert forall|q: int| 0 <= q < i + 1 implies earlier(
                        memo.done_view(),
                        memo.done.len() as int,
                        lowercase(#[trigger] all[q]),
                        nodes_view(nodes@)[q],
                    ) by {
                        if q < i {
                            let key = lowercase(all[q]);
                            assert(earlier(
                                before.done_view(),
                                before.done.len() as int,
                                key,
                                front[q],
                            ));
                            let p = choose|p: int|
                                0 <= p < before.done.len() && p < before.done_view().len()
                                    && #[trigger] before.done_view()[p] == (key, front[q]);
                            assert(memo.done_view()[p] == (key, front[q]));
                        }
                    }
                }
            },
        }
        i = i + 1;
    }
    proof {
        assert(all.skip(names.len() as int) =~= Seq::empty());
        assert(nodes_view(nodes@) + Seq::<ResolvedNodeView>::empty() =~= nodes_view(nodes@));
    }
    Ok(nodes)
}

/// The trees of a component's requirements, with the record of the run.
#[derive(Debug)]
pub struct Resolution {
    /// One node for each required interface, in the order of the request.
    pub tree: Vec<ResolvedNode>,
    /// The interfaces that were finished, by their lowercase names, in the order in
    /// which they were finished: each of them once.
    pub finalized: Vec<String>,
}

/// Resolves the interfaces that a component requires, in a scope, against the
/// effective table.
///
/// Each interface is looked up in the scope, and what its instance requires is
/// resolved below it. An interface is finished once; where it is required again, the
/// node it was finished with is taken. The first interface that cannot be resolved
/// ends the run with its error, and no tree is handed out.
pub fn resolve_in_scope(
    table: &LibraryInstances,
    arch: &Architecture,
    module: &Module,
    required_interfaces: &Vec<String>,
) -> (out: Result<Resolution, ResolutionError>)
    ensures
        match resolutions(
            table@,
            arch@,
            module@,
            required_interfaces.deep_view(),
            Seq::empty(),
        ) {
            Ok(nodes) => {
                &&& out matches Ok(o)
                &&& nodes_view(o.tree@) == nodes
                &&& nodes.len() == required_interfaces.len()
                &&& o.finalized.deep_view() == finish_orders(
                    table@,
                    arch@,
                    module@,
                    required_interfaces.deep_view(),
                    Seq::empty(),
                    Seq::empty(),
                )
                &&& o.finalized.deep_view().no_duplicates()
                &&& forall|i: int|
                    0 <= i < required_interfaces.len() ==> o.finalized.deep_view().contains(
                        lowercase(#[trigger] required_interfaces.deep_view()[i]),
                    )
                &&& forall|j: int|
                    0 <= j < o.finalized.len() ==> lookup(
                        table@,
                        #[trigger] o.finalized.deep_view()[j],
                        arch@,
                        module@,
                    ) is Some
            },
            Err(e) => out matches Err(o) && o@ == e,
        },
{
    let mut memo = Memo { chain: Vec::new(), active: Vec::new(), done: Vec::new() };
    assert(memo.chain_view() =~= Seq::empty());
    assert(finished_names(memo.done_view()) =~= Seq::empty());
    let tree = match resolve_all(table, arch, module, required_interfaces, &mut memo) {
        Ok(tree) => tree,
        Err(e) => {
            return Err(e);
        },
    };
    let mut finalized: Vec<String> = Vec::new();
    let mut i: usize = 0;
    while i < memo.done.len()
        invariant
            i <= memo.done.len(),
            finalized.len() == i,
            forall|q: int|
                0 <= q < i ==> (#[trigger] finalized.deep_view()[q]) == memo.done_view()[q].0,
        decreases memo.done.len() - i,
    {
        let ghost before = finalized.deep_view();
        let name = memo.done[i].0.clone();
        finalized.push(name);
        assert(finalized.deep_view() =~= before.push(name@));
        i = i + 1;
    }
    proof {
        let names = finalized.deep_view();
        let done = memo.done_view();
        assert(names =~= finished_names(done));
        assert forall|a: int, b: int| 0 <= a < names.len() && 0 <= b < names.len() && a
            != b implies names[a] != names[b] by {
            if a < b {
                assert(done[a].0 != done[b].0);
            } else {
                assert(done[b].0 != done[a].0);
            }
        }
        assert forall|i: int| 0 <= i < required_interfaces.len() implies names.contains(
            lowercase(#[trigger] required_interfaces.deep_view()[i]),
        ) by {
            let key = lowercase(required_interfaces.deep_view()[i]);
            let node = nodes_view(tree@)[i];
            assert(earlier(done, memo.done.len() as int, key, node));
            let p = choose|p: int|
                0 <= p < memo.done.len() && p < done.len() && #[trigger] done[p] == (key, node);
            assert(names[p] == key);
        }
        assert forall|j: int| 0 <= j < names.len() implies lookup(
            table@,
            #[trigger] names[j],
            arch@,
            module@,
        ) is Some by {
            assert(settled(table@, arch@, module@, done, j));
            assert(names[j] == done[j].0);
        }
    }
    Ok(Resolution { tree, finalized })
}

/// What to do for a component whose scope no layer declares.
#[derive(Debug, Clone, Copy, PartialEq, Eq, Structural)]
pub enum ScopePolicy {
    /// Resolve it in the scope (`Common`, `Common`).
    DefaultToCommon,
    /// Refuse it.
    Strict,
}

/// The scope in which any architecture and any module kind stand.
pub open spec fn common_scope() -> ComponentInstanceView {
    ComponentInstanceView { arch: ArchitectureView::Common, module: ModuleView::Common }
}

/// The scope a component is resolved in: the one declared for it, or, where none is
/// declared, (`Common`, `Common`).
pub open spec fn scope_of(components: ComponentMap, name: Seq<char>) -> ComponentInstanceView {
    match components.get(lowercase(name)) {
        Some(scope) => scope,
        None => common_scope(),
    }
}

/// The scope of a component, and whether it was declared.
#[derive(Debug)]
pub struct ScopeChoice {
    /// The scope to resolve in.
    pub scope: ComponentInstance,
    /// Whether the scope was declared for the component; `false` where
    /// (`Common`, `Common`) stands in for a missing declaration.
    pub declared: bool,
}

/// Finds the scope to resolve a component in. A component without a declared scope
/// gets (`Common`, `Common`), and the result says so.
pub fn component_scope(components: &ComponentInstances, component_name: &str) -> (out:
    ScopeChoice)
    ensures
        out.scope@ == scope_of(components@, component_name@),
        out.declared == components@.dom().contains(lowercase(component_name@)),
{
    match components.get(component_name) {
        Some(scope) => ScopeChoice { scope, declared: true },
        None => ScopeChoice {
            scope: ComponentInstance { arch: Architecture::Common, module: Module::Common },
            declared: false,
        },
    }
}

/// The tree of a component: its required interfaces, resolved against the layers
/// composed by priority, in the component's scope.
pub open spec fn resolved_tree(
    component_name: Seq<char>,
    required_interfaces: Seq<Seq<char>>,
    layers: Seq<ConfigView>,
    policy: ScopePolicy,
) -> Resolved<Seq<ResolvedNodeView>> {
    let config = effective(layers);
    if policy == ScopePolicy::Strict && !config.components.dom().contains(
        lowercase(component_name),
    ) {
        Err(ResolutionErrorView::UnknownComponent(component_name))
    } else {
        let scope = scope_of(config.components, component_name);
        resolutions(config.libraries, scope.arch, scope.module, required_interfaces, Seq::empty())
    }
}

/// What a call handed out, as contracts see it.
pub open spec fn outcome_view(out: Result<Vec<ResolvedNode>, ResolutionError>) -> Resolved<
    Seq<ResolvedNodeView>,
> {
    match out {
        Ok(tree) => Ok(nodes_view(tree@)),
        Err(e) => Err(e@),
    }
}

/// Resolving is repeatable: two runs on the same component, requirements and layers
/// hand out trees that are equal node for node, or the same error.
pub proof fn lemma_resolution_is_repeatable(
    once: Result<Vec<ResolvedNode>, ResolutionError>,
    twice: Result<Vec<ResolvedNode>, ResolutionError>,
    component_name: Seq<char>,
    required_interfaces: Seq<Seq<char>>,
    layers: Seq<ConfigView>,
    policy: ScopePolicy,
)
    requires
        outcome_view(once) == resolved_tree(component_name, required_interfaces, layers, policy),
        outcome_view(twice) == resolved_tree(component_name, required_interfaces, layers, policy),
    ensures
        outcome_view(once) == outcome_view(twice),
        once is Ok <==> twice is Ok,
        once matches Ok(a) ==> twice matches Ok(b) && nodes_view(a@) == nodes_view(b@),
{
}

/// Resolves a component's requirements against layers of configuration, the layer
/// of the highest priority first, and says what to do where no layer declares the
/// component's scope.
pub fn resolve_with_policy(
    component_name: &str,
    required_interfaces: &Vec<String>,
    layers: &Vec<Config>,
    policy: ScopePolicy,
) -> (out: Result<Vec<ResolvedNode>, ResolutionError>)
    ensures
        outcome_view(out) == resolved_tree(
            component_name@,
            required_interfaces.deep_view(),
            views(layers@),
            policy,
        ),
        out matches Ok(tree) ==> tree.len() == required_interfaces.len(),
{
    let config = Config::compose(layers);
    let choice = component_scope(&config.components, component_name);
    if !choice.declared {
        match policy {
            ScopePolicy::Strict => {
                return Err(ResolutionError::UnknownComponent(component_name.to_owned()));
            },
            ScopePolicy::DefaultToCommon => {},
        }
    }
    match resolve_in_scope(
        &config.libraries,
        &choice.scope.arch,
        &choice.scope.module,
        required_interfaces,
    ) {
        Ok(resolution) => Ok(resolution.tree),
        Err(e) => Err(e),
    }
}

/// Resolves a component's requirements against layers of configuration, the layer
/// of the highest priority first. A component whose scope no layer declares is
/// resolved in the scope (`Common`, `Common`); [`component_scope`] tells whether
/// that is so.
pub fn resolve(
    component_name: &str,
    required_interfaces: &Vec<String>,
    layers: &Vec<Config>,
) -> (out: Result<Vec<ResolvedNode>, ResolutionError>)
    ensures
        outcome_view(out) == resolved_tree(
            component_name@,
            required_interfaces.deep_view(),
            views(layers@),
            ScopePolicy::DefaultToCommon,
        ),
        out matches Ok(tree) ==> tree.len() == required_interfaces.len(),
{
    resolve_with_policy(component_name, required_interfaces, layers, ScopePolicy::DefaultToCommon)
}

} // verus!
