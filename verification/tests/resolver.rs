use plumber::declare::{Input, InputLink};
use plumber::nodes::{NodeGroup, NodeGroupRef, Ref};
use plumber::resolver::topological_sort_inputs;
use plumber::value::Value;

fn leak<T>(items: Vec<T>) -> &'static [T] {
    Vec::leak(items)
}

fn texture_group() -> &'static NodeGroup {
    Box::leak(Box::new(NodeGroup {
        id: 0,
        nodes: leak(Vec::new()),
        properties: leak(Vec::new()),
        inputs: leak(Vec::new()),
        outputs: leak(Vec::new()),
    }))
}

fn input(id: &'static str, link: InputLink) -> Input {
    Input {
        id,
        pipeline: Vec::new(),
        links: vec![(NodeGroupRef::new(texture_group(), "?"), link)],
        properties: Vec::new(),
    }
}

fn position(order: &[usize], index: usize) -> usize {
    order.iter().position(|&i| i == index).unwrap()
}

#[test]
fn topological_sort_inputs_cyclic() {
    let inputs = vec![
        input("0", InputLink::Input(Ref::new("3", "?"))),
        input("1", InputLink::Value(Value::Bool(false))),
        input("2", InputLink::Input(Ref::new("0", "?"))),
        input("3", InputLink::Input(Ref::new("2", "?"))),
    ];

    let result = topological_sort_inputs(&inputs);

    assert!(result.is_none());
}

#[test]
fn topological_sort_inputs_noncyclic() {
    let inputs = vec![
        input("0", InputLink::Input(Ref::new("3", "?"))),
        input("1", InputLink::Value(Value::Bool(false))),
        input("2", InputLink::Input(Ref::new("1", "?"))),
        input("3", InputLink::Input(Ref::new("1", "?"))),
    ];

    let result = topological_sort_inputs(&inputs).unwrap();

    assert!(position(&result, 0) > position(&result, 3));

    assert!(position(&result, 2) > position(&result, 1));

    assert!(position(&result, 3) > position(&result, 1));
}
