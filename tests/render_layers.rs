use std::cmp::Ordering;

use render_layers::layers::{Layer, RenderLayers};
use render_layers::propagate::{
    inherited_layers, update_entity, visible_layers_propagate, ComputedVisibleLayers, LayerTree,
    VisibleLayers,
};

fn all_low_layers() -> RenderLayers {
    let layers: Vec<Layer> = (0..64).collect();
    RenderLayers::from_layers(&layers)
}

#[test]
fn rendering_mask_sanity() {
    let layer_0 = RenderLayers::layer(0);
    assert_eq!(layer_0.bits().len(), 1, "layer 0 is one buffer");
    assert_eq!(layer_0.bits()[0], 1, "layer 0 is mask 1");
    let layer_1 = RenderLayers::layer(1);
    assert_eq!(layer_1.bits().len(), 1, "layer 1 is one buffer");
    assert_eq!(layer_1.bits()[0], 2, "layer 1 is mask 2");
    let layer_0_1 = RenderLayers::layer(0).with(1);
    assert_eq!(layer_0_1.bits().len(), 1, "layer 0 + 1 is one buffer");
    assert_eq!(layer_0_1.bits()[0], 3, "layer 0 + 1 is mask 3");
    let layer_0_1_without_0 = layer_0_1.without(0);
    assert_eq!(
        layer_0_1_without_0.bits().len(),
        1,
        "layer 0 + 1 - 0 is one buffer"
    );
    assert_eq!(layer_0_1_without_0.bits()[0], 2, "layer 0 + 1 - 0 is mask 2");
    let layer_0_2345 = RenderLayers::layer(0).with(2345);
    assert_eq!(layer_0_2345.bits().len(), 37, "layer 0 + 2345 is 37 buffers");
    assert_eq!(layer_0_2345.bits()[0], 1, "layer 0 + 2345 is mask 1");
    assert_eq!(
        layer_0_2345.bits()[36],
        2199023255552,
        "layer 0 + 2345 is mask 2199023255552"
    );
    assert!(
        layer_0_2345.intersects(&layer_0),
        "layer 0 + 2345 intersects 0"
    );
    assert!(
        RenderLayers::layer(1).intersects(&RenderLayers::layer(1)),
        "layers match like layers"
    );
    let one_bit = RenderLayers::from_layers(&[0]);
    assert_eq!(one_bit.bits(), &[1u64]);
    assert!(
        RenderLayers::layer(0).intersects(&one_bit),
        "a layer of 0 means the mask is just 1 bit"
    );

    assert!(
        RenderLayers::layer(0)
            .with(3)
            .intersects(&RenderLayers::layer(3)),
        "a mask will match another mask containing any similar layers"
    );

    assert!(
        RenderLayers::default().intersects(&RenderLayers::default()),
        "default masks match each other"
    );

    assert!(
        !RenderLayers::layer(0).intersects(&RenderLayers::layer(1)),
        "masks with differing layers do not match"
    );
    assert!(
        !RenderLayers::none().intersects(&RenderLayers::none()),
        "empty masks don't match"
    );
    assert_eq!(
        RenderLayers::from_layers(&[0, 2, 16, 30]).iter(),
        vec![0, 2, 16, 30],
        "from_layers and get_layers should roundtrip"
    );
    assert_eq!(
        RenderLayers::from_layers(&[0, 1, 2, 3]).debug_string().as_str(),
        "RenderLayers([0, 1, 2, 3])",
        "Debug instance shows layers"
    );
    assert_eq!(
        RenderLayers::from_layers(&[0, 1, 2]),
        vec![0, 1, 2]
            .into_iter()
            .fold(RenderLayers::none(), RenderLayers::with),
        "from_layers and from_iter are equivalent"
    );

    let tricky_layers = vec![0, 5, 17, 55, 999, 1025, 1026];
    let layers = RenderLayers::from_layers(&tricky_layers);
    let out = layers.iter();
    assert_eq!(tricky_layers, out, "tricky layers roundtrip");
}

#[test]
fn render_layer_ops() {
    let many = all_low_layers();
    assert_eq!(many.bits(), &[u64::MAX]);
    let a = RenderLayers::from_layers(&[2, 4, 6]);
    let b = RenderLayers::from_layers(&[1, 2, 3, 4, 5]);

    assert_eq!(
        a.clone() | b.clone(),
        RenderLayers::from_layers(&[1, 2, 3, 4, 5, 6])
    );
    assert_eq!(a.clone() & b.clone(), RenderLayers::from_layers(&[2, 4]));
    assert_eq!(a ^ b, RenderLayers::from_layers(&[1, 3, 5, 6]));

    assert_eq!(RenderLayers::none() & many.clone(), RenderLayers::none());
    assert_eq!(RenderLayers::none() | many.clone(), many.clone());
    assert_eq!(RenderLayers::none() ^ many.clone(), many);
}

#[test]
fn render_layer_shrink() {
    // Since it has layers greater than 64, the instance should take up two memory blocks
    let layers = RenderLayers::from_layers(&[1, 77]);
    assert!(layers.bits().len() == 2);
    // When excluding that layer, it should drop the extra memory block
    let layers = layers.without(77);
    assert!(layers.bits().len() == 1);
}

#[test]
fn render_layer_iter_no_overflow() {
    let layers = RenderLayers::from_layers(&[63]);
    assert_eq!(layers.iter().len(), 1);
}

#[test]
fn single_layer_lists_itself() {
    for n in [0usize, 1, 63, 64, 65, 127, 128, 1000] {
        let s = RenderLayers::none().with(n);
        assert_eq!(s.iter(), vec![n]);
        assert!(s.intersects(&RenderLayers::from_layers(&[n])));
        assert!(!s.intersects(&RenderLayers::from_layers(&[n + 1])));
    }
    assert_eq!(RenderLayers::layer(63).bits(), &[1u64 << 63]);
}

#[test]
fn remove_then_add_restores() {
    let a = RenderLayers::from_layers(&[3, 70, 200]);
    for n in [3usize, 70, 200] {
        let restored = a.clone().without(n).with(n);
        assert_eq!(restored, a);
        assert_eq!(restored.bits(), a.bits());
    }
}

#[test]
fn same_members_same_blocks() {
    let built = RenderLayers::from_layers(&[5, 300]).without(300);
    let direct = RenderLayers::layer(5);
    assert_eq!(built, direct);
    assert_eq!(built.bits(), &[32u64]);
    let via_xor = RenderLayers::from_layers(&[5, 300]) ^ RenderLayers::from_layers(&[300]);
    assert_eq!(via_xor, direct);
    let via_and = RenderLayers::from_layers(&[5, 300]) & RenderLayers::from_layers(&[5, 9]);
    assert_eq!(via_and, direct);
    assert_eq!(RenderLayers::from_layers(&[300, 5, 5]), RenderLayers::from_layers(&[5, 300]));
}

#[test]
fn set_algebra_commutes_and_associates() {
    let a = RenderLayers::from_layers(&[1, 64, 130]);
    let b = RenderLayers::from_layers(&[1, 2, 130, 500]);
    let c = RenderLayers::from_layers(&[2, 64, 700]);
    assert_eq!(a.union(&b), b.union(&a));
    assert_eq!(a.intersection(&b), b.intersection(&a));
    assert_eq!(a.symmetric_difference(&b), b.symmetric_difference(&a));
    assert_eq!(a.union(&b).union(&c), a.union(&b.union(&c)));
    assert_eq!(
        a.intersection(&b).intersection(&c),
        a.intersection(&b.intersection(&c))
    );
    assert_eq!(a.intersection(&b).iter(), vec![1, 130]);
    assert_eq!(a.symmetric_difference(&b).iter(), vec![2, 64, 500]);
    assert_eq!(a.union(&b).iter(), vec![1, 2, 64, 130, 500]);
}

#[test]
fn empty_set_identities() {
    let x = RenderLayers::from_layers(&[0, 77, 900]);
    let e = RenderLayers::none();
    assert_eq!(e.union(&x), x);
    assert_eq!(e.intersection(&x), RenderLayers::none());
    assert_eq!(e.intersection(&x).bits(), &[0u64]);
    assert_eq!(e.symmetric_difference(&x), x);
    assert_eq!(RenderLayers::none().iter(), Vec::<Layer>::new());
}

#[test]
fn intersects_is_symmetric() {
    let a = RenderLayers::from_layers(&[3, 600]);
    let b = RenderLayers::from_layers(&[600]);
    let c = RenderLayers::from_layers(&[4]);
    assert_eq!(a.intersects(&b), b.intersects(&a));
    assert!(a.intersects(&b));
    assert_eq!(a.intersects(&c), c.intersects(&a));
    assert!(!a.intersects(&c));
    assert!(a.intersects(&a));
    let e = RenderLayers::none();
    assert!(!e.intersects(&e));
    assert!(!e.intersects(&a));
}

#[test]
fn layer_77_grows_and_shrinks() {
    let small = RenderLayers::from_layers(&[1, 2]);
    assert_eq!(small.bits().len(), 1);
    let grown = small.clone().with(77);
    assert_eq!(grown.bits().len(), 2);
    assert_eq!(grown.bits()[1], 1u64 << 13);
    let shrunk = grown.without(77);
    assert_eq!(shrunk.bits().len(), 1);
    assert_eq!(shrunk, small);
    assert_eq!(shrunk, RenderLayers::from_layers(&[2, 1]));
}

#[test]
fn without_missing_layer_is_noop() {
    let a = RenderLayers::from_layers(&[4]);
    assert_eq!(a.clone().without(5000), a);
    assert_eq!(a.clone().without(5), a);
    assert_eq!(a.clone().without(5000).bits().len(), 1);
}

#[test]
fn default_is_layer_zero_and_none_is_empty() {
    assert_eq!(RenderLayers::default().iter(), vec![0]);
    assert_eq!(RenderLayers::none().bits(), &[0u64]);
    assert_ne!(RenderLayers::default(), RenderLayers::none());
    assert_eq!(ComputedVisibleLayers::default().0, RenderLayers::layer(0));
    assert!(matches!(VisibleLayers::default(), VisibleLayers::Inherited));
}

fn chain() -> (LayerTree, usize, usize, usize) {
    let mut tree = LayerTree::new();
    let root = tree.add_entity(VisibleLayers::Inherited, None);
    let mid = tree.add_entity(VisibleLayers::Inherited, Some(root));
    let leaf = tree.add_entity(VisibleLayers::Inherited, Some(mid));
    (tree, root, mid, leaf)
}

#[test]
fn propagation_down_a_chain() {
    let (mut tree, root, mid, leaf) = chain();
    let red = RenderLayers::from_layers(&[1, 100]);
    tree.set_visible(root, VisibleLayers::Layers(red.clone()));
    visible_layers_propagate(&mut tree, &[root]);
    assert_eq!(tree.computed_layers(root), &red);
    assert_eq!(tree.computed_layers(mid), &red);
    assert_eq!(tree.computed_layers(leaf), &red);

    let blue = RenderLayers::from_layers(&[7]);
    tree.set_visible(leaf, VisibleLayers::Layers(blue.clone()));
    visible_layers_propagate(&mut tree, &[leaf]);
    assert_eq!(tree.computed_layers(leaf), &blue);

    let green = RenderLayers::from_layers(&[9]);
    tree.set_visible(root, VisibleLayers::Layers(green.clone()));
    visible_layers_propagate(&mut tree, &[root]);
    assert_eq!(tree.computed_layers(mid), &green);
    assert_eq!(tree.computed_layers(leaf), &blue);

    tree.set_visible(leaf, VisibleLayers::Inherited);
    visible_layers_propagate(&mut tree, &[leaf]);
    assert_eq!(tree.computed_layers(leaf), &green);
}

#[test]
fn propagation_stops_where_nothing_changes() {
    let (mut tree, root, mid, leaf) = chain();
    let red = RenderLayers::from_layers(&[1]);
    tree.set_visible(mid, VisibleLayers::Layers(red.clone()));
    visible_layers_propagate(&mut tree, &[root, mid, leaf]);
    assert_eq!(tree.computed_layers(mid), &red);
    assert_eq!(tree.computed_layers(leaf), &red);

    // A stale value below `mid` stays: `mid` does not change, so its children are not visited.
    let stale = RenderLayers::from_layers(&[5]);
    tree.computed[leaf] = ComputedVisibleLayers(stale.clone());
    tree.set_visible(mid, VisibleLayers::Layers(red.clone()));
    visible_layers_propagate(&mut tree, &[mid]);
    assert_eq!(tree.computed_layers(mid), &red);
    assert_eq!(tree.computed_layers(leaf), &stale);

    // Flagging the leaf itself repairs it.
    visible_layers_propagate(&mut tree, &[leaf]);
    assert_eq!(tree.computed_layers(leaf), &red);
}

#[test]
fn inherited_root_gets_no_layer() {
    let mut tree = LayerTree::new();
    let root = tree.add_entity(VisibleLayers::Inherited, None);
    assert_eq!(tree.computed_layers(root), &RenderLayers::default());
    assert_eq!(inherited_layers(&tree, root), RenderLayers::none());
    visible_layers_propagate(&mut tree, &[root]);
    assert_eq!(tree.computed_layers(root), &RenderLayers::none());
}

#[test]
fn untracked_parent_gives_no_layer() {
    let mut tree = LayerTree::new();
    let parent = tree.add_entity(VisibleLayers::Layers(RenderLayers::layer(3)), None);
    let child = tree.add_entity(VisibleLayers::Inherited, Some(parent));
    tree.visible[parent] = None;
    update_entity(&mut tree, child);
    assert_eq!(tree.computed_layers(child), &RenderLayers::none());
    let dangling = tree.add_entity(VisibleLayers::Inherited, Some(99));
    update_entity(&mut tree, dangling);
    assert_eq!(tree.computed_layers(dangling), &RenderLayers::none());
    // Flags for missing entities are ignored.
    visible_layers_propagate(&mut tree, &[42]);
}

#[test]
fn cyclic_links_terminate() {
    let mut tree = LayerTree::new();
    let a = tree.add_entity(VisibleLayers::Inherited, None);
    let b = tree.add_entity(VisibleLayers::Inherited, Some(a));
    tree.children[b].push(a);
    tree.parent[a] = Some(b);
    tree.set_visible(a, VisibleLayers::Layers(RenderLayers::layer(2)));
    visible_layers_propagate(&mut tree, &[a, b]);
    assert_eq!(tree.computed_layers(a), &RenderLayers::layer(2));
    assert_eq!(tree.computed_layers(b), &RenderLayers::layer(2));
}

#[test]
fn sets_order_by_blocks() {
    let low = RenderLayers::from_layers(&[0]);
    let high = RenderLayers::from_layers(&[1]);
    let far = RenderLayers::from_layers(&[64]);
    assert_eq!(low.partial_cmp(&high), Some(Ordering::Less));
    assert_eq!(far.cmp(&low), Ordering::Less);
    assert_eq!(low.cmp(&RenderLayers::from_layers(&[0, 64])), Ordering::Less);
    assert_eq!(high.cmp(&high.clone()), Ordering::Equal);
    assert!(RenderLayers::none() < RenderLayers::default());
}

#[test]
fn declared_and_computed_equality() {
    let a = VisibleLayers::Layers(RenderLayers::from_layers(&[1, 70]));
    let b = VisibleLayers::Layers(RenderLayers::from_layers(&[70, 1]));
    assert_eq!(a, b);
    assert_ne!(a, VisibleLayers::Inherited);
    assert_ne!(a, VisibleLayers::Layers(RenderLayers::layer(1)));
    assert_eq!(VisibleLayers::Inherited, VisibleLayers::default());
    assert_eq!(
        ComputedVisibleLayers(RenderLayers::layer(0)),
        ComputedVisibleLayers::default()
    );
    assert_ne!(
        ComputedVisibleLayers(RenderLayers::none()),
        ComputedVisibleLayers::default()
    );
}

#[test]
fn pass_leaves_branching_tree_consistent() {
    let mut tree = LayerTree::new();
    let root = tree.add_entity(VisibleLayers::Inherited, None);
    let left = tree.add_entity(VisibleLayers::Inherited, Some(root));
    let right = tree.add_entity(VisibleLayers::Layers(RenderLayers::layer(8)), Some(root));
    let left_leaf = tree.add_entity(VisibleLayers::Inherited, Some(left));
    let right_leaf = tree.add_entity(VisibleLayers::Inherited, Some(right));
    let all = [right_leaf, left_leaf, right, left, root];
    visible_layers_propagate(&mut tree, &all);
    assert_eq!(tree.computed_layers(root), &RenderLayers::none());
    assert_eq!(tree.computed_layers(left), &RenderLayers::none());
    assert_eq!(tree.computed_layers(left_leaf), &RenderLayers::none());
    assert_eq!(tree.computed_layers(right), &RenderLayers::layer(8));
    assert_eq!(tree.computed_layers(right_leaf), &RenderLayers::layer(8));

    let s = RenderLayers::from_layers(&[2, 300]);
    tree.set_visible(root, VisibleLayers::Layers(s.clone()));
    visible_layers_propagate(&mut tree, &[left_leaf, root]);
    assert_eq!(tree.computed_layers(root), &s);
    assert_eq!(tree.computed_layers(left), &s);
    assert_eq!(tree.computed_layers(left_leaf), &s);
    assert_eq!(tree.computed_layers(right), &RenderLayers::layer(8));
    assert_eq!(tree.computed_layers(right_leaf), &RenderLayers::layer(8));
}
