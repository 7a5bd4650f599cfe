use assembly::felt::MODULUS;
use assembly::hasher::hash;
use assembly::parsers::combine_blocks;
use assembly::{
    CallSet, CodeBlock, CodeBlockTable, Digest, Felt, Kernel, Operation, Procedure,
    ProcedureCache, ProcedureId, Program,
};
use winter_crypto::hashers::Rp64_256;
use winter_crypto::ElementHasher;
use winter_math::fields::f64::BaseElement;

fn push(n: u64) -> Operation {
    Operation::Push(n.into())
}

fn span(ops: &[Operation]) -> CodeBlock {
    CodeBlock::new_span(ops.to_vec())
}

/// The digest of field elements, by way of the hash function itself.
fn rescue(elements: &[u64]) -> Digest {
    let input: Vec<BaseElement> = elements.iter().map(|e| BaseElement::new(*e)).collect();
    let d: [BaseElement; 4] = Rp64_256::hash_elements(&input).into();
    Digest { e0: d[0].as_int(), e1: d[1].as_int(), e2: d[2].as_int(), e3: d[3].as_int() }
}

#[test]
fn digests_are_those_of_the_hash_function() {
    let digest = hash(&vec![1, 2, 3, 4]);
    assert_eq!(digest, rescue(&[1, 2, 3, 4]));
    assert_ne!(digest, Digest { e0: 1, e1: 2, e2: 3, e3: 4 });
    assert_ne!(digest, hash(&vec![1, 2, 3]));
    assert!(digest.e0 < MODULUS && digest.e1 < MODULUS);
    assert!(digest.e2 < MODULUS && digest.e3 < MODULUS);
    // integers which stand for one field element have one digest
    assert_eq!(hash(&vec![0]), hash(&vec![MODULUS]));
}

#[test]
fn blocks_are_hashed_by_kind_and_content() {
    let a = span(&[push(7), Operation::Add, Operation::FmpUpdate, Operation::Noop]);
    assert_eq!(a.hash(), rescue(&[0, 3, 7, 1, 2, 0]));
    let b = span(&[Operation::Add]);
    assert_eq!(b.hash(), rescue(&[0, 1]));
    let (x, y) = (a.hash(), b.hash());
    let join = CodeBlock::new_join([a.clone(), b.clone()]);
    assert_eq!(join.hash(), rescue(&[1, x.e0, x.e1, x.e2, x.e3, y.e0, y.e1, y.e2, y.e3]));
    let split = CodeBlock::new_split(a.clone(), b.clone());
    assert_eq!(split.hash(), rescue(&[2, x.e0, x.e1, x.e2, x.e3, y.e0, y.e1, y.e2, y.e3]));
    let repeated = CodeBlock::new_loop(a.clone());
    assert_eq!(repeated.hash(), rescue(&[3, x.e0, x.e1, x.e2, x.e3]));
    assert_eq!(CodeBlock::new_call(x).hash(), rescue(&[4, x.e0, x.e1, x.e2, x.e3]));
    assert_eq!(CodeBlock::new_syscall(x).hash(), rescue(&[5, x.e0, x.e1, x.e2, x.e3]));
}

#[test]
fn neighbouring_spans_are_put_together() {
    let combined = combine_blocks(vec![span(&[push(1)]), span(&[push(2)]), span(&[push(3)])]);
    assert_eq!(combined, span(&[push(1), push(2), push(3)]));
}

#[test]
fn blocks_are_joined_into_a_balanced_tree() {
    let block = |n: u64| CodeBlock::new_loop(span(&[push(n)]));
    assert_eq!(combine_blocks(vec![block(1)]), block(1));
    let two = CodeBlock::new_join([block(1), block(2)]);
    assert_eq!(combine_blocks(vec![block(1), block(2)]), two);
    let three = CodeBlock::new_join([two.clone(), block(3)]);
    assert_eq!(combine_blocks(vec![block(1), block(2), block(3)]), three);
    let four = CodeBlock::new_join([two, CodeBlock::new_join([block(3), block(4)])]);
    let five = CodeBlock::new_join([four, block(5)]);
    assert_eq!(
        combine_blocks(vec![block(1), block(2), block(3), block(4), block(5)]),
        five
    );
}

#[test]
fn no_blocks_do_nothing() {
    assert_eq!(combine_blocks(vec![]), span(&[Operation::Noop]));
}

#[test]
fn field_elements_are_residues() {
    assert_eq!(Felt::from(5u64).value, 5);
    assert_eq!(Felt::from(MODULUS).value, 0);
    assert_eq!(Felt::from(u64::MAX).value, 0xffff_fffe);
    assert_eq!(Felt::from(7u32).value, 7);
    assert_eq!((-Felt::from(1u64)).value, MODULUS - 1);
    assert_eq!((-Felt::from(0u64)).value, 0);
    assert_eq!(Felt { value: u64::MAX }.as_int(), 0xffff_fffe);
    assert_eq!((-Felt { value: MODULUS + 3 }).value, MODULUS - 3);
}

#[test]
fn callsets_hold_each_procedure_once() {
    let a = ProcedureId::new("m", "a");
    let b = ProcedureId::new("m", "b");
    let mut set = CallSet::new();
    set.insert(&a);
    set.insert(&b);
    set.insert(&a);
    assert_eq!(set.len(), 2);
    assert!(set.contains(&a));
    assert!(!set.contains(&ProcedureId::new("n", "a")));
    let mut other = CallSet::new();
    other.insert(&b);
    other.append(&set);
    assert_eq!(other.len(), 2);
    assert_eq!(other.get(0).name(), "b");
    assert_eq!(other.get(1).name(), "a");
}

#[test]
fn cache_replaces_procedures_by_identifier() {
    let proc = |name: &str, n: u64| {
        Procedure::new(ProcedureId::new("m", name), true, 0, span(&[push(n)]), CallSet::new())
    };
    let mut cache = ProcedureCache::new();
    cache.insert(proc("a", 1));
    cache.insert(proc("b", 2));
    cache.insert(proc("a", 3));
    assert_eq!(cache.len(), 2);
    assert_eq!(cache.values().len(), 2);
    let a = cache.get(&ProcedureId::new("m", "a")).unwrap();
    assert_eq!(a.code_root(), &span(&[push(3)]));
    assert!(cache.get(&ProcedureId::new("m", "c")).is_none());
}

#[test]
fn programs_are_made_of_their_parts() {
    let root = span(&[push(1)]);
    let called = span(&[push(2)]);
    let mut table = CodeBlockTable::new();
    assert!(table.get(called.hash()).is_none());
    table.insert(called.clone());
    let kernel = Kernel::new(vec![root.hash()]);
    let program = Program::with_kernel(root.clone(), kernel.clone(), table);
    assert_eq!(program.hash(), root.hash());
    assert_eq!(program.root(), &root);
    assert_eq!(program.kernel().proc_hashes(), kernel.proc_hashes());
    assert_eq!(program.cb_table().get(called.hash()), Some(&called));
    assert_eq!(Kernel::default().proc_hashes().len(), 0);
}

#[test]
fn different_blocks_have_different_digests() {
    let a = span(&[push(1)]);
    let b = span(&[Operation::Add]);
    let blocks = vec![
        a.clone(),
        b.clone(),
        span(&[]),
        span(&[push(3), Operation::Add]),
        span(&[Operation::Add, push(3)]),
        CodeBlock::new_join([a.clone(), b.clone()]),
        CodeBlock::new_join([b.clone(), a.clone()]),
        CodeBlock::new_split(a.clone(), b.clone()),
        CodeBlock::new_loop(a.clone()),
        CodeBlock::new_call(a.hash()),
        CodeBlock::new_syscall(a.hash()),
    ];
    for i in 0..blocks.len() {
        for j in 0..i {
            assert_ne!(blocks[i].hash(), blocks[j].hash());
        }
        assert_eq!(blocks[i].hash(), blocks[i].clone().hash());
    }
}
