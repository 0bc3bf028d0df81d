use dom_tree::{Arena, NodeId, NodeRef};
use std::cell::RefCell;
use std::rc::{Rc, Weak};

struct Plain {
    parent: RefCell<Option<Weak<Plain>>>,
    previous_sibling: RefCell<Option<Weak<Plain>>>,
    next_sibling: RefCell<Option<Rc<Plain>>>,
    first_child: RefCell<Option<Rc<Plain>>>,
    last_child: RefCell<Option<Weak<Plain>>>,
    label: usize,
}

fn plain(label: usize) -> Rc<Plain> {
    Rc::new(Plain {
        parent: RefCell::new(None),
        previous_sibling: RefCell::new(None),
        next_sibling: RefCell::new(None),
        first_child: RefCell::new(None),
        last_child: RefCell::new(None),
        label,
    })
}

fn up(link: &RefCell<Option<Weak<Plain>>>) -> Option<Rc<Plain>> {
    link.borrow().as_ref().and_then(|weak| weak.upgrade())
}

fn plain_detach(node: &Rc<Plain>) {
    let parent_weak = node.parent.borrow_mut().take();
    let previous_weak = node.previous_sibling.borrow_mut().take();
    let next_strong = node.next_sibling.borrow_mut().take();
    let previous = previous_weak.as_ref().and_then(|weak| weak.upgrade());
    if let Some(next) = next_strong.as_ref() {
        *next.previous_sibling.borrow_mut() = previous_weak;
    } else if let Some(parent) = parent_weak.as_ref().and_then(|weak| weak.upgrade()) {
        *parent.last_child.borrow_mut() = previous_weak;
    }
    if let Some(previous) = previous {
        let old = previous.next_sibling.replace(next_strong);
        drop(old);
    } else if let Some(parent) = parent_weak.as_ref().and_then(|weak| weak.upgrade()) {
        let old = parent.first_child.replace(next_strong);
        drop(old);
    }
}

fn plain_append(parent: &Rc<Plain>, child: Rc<Plain>) {
    plain_detach(&child);
    *child.parent.borrow_mut() = Some(Rc::downgrade(parent));
    let last_weak = parent.last_child.replace(Some(Rc::downgrade(&child)));
    if let Some(last_weak) = last_weak {
        if let Some(last) = last_weak.upgrade() {
            *child.previous_sibling.borrow_mut() = Some(last_weak);
            let old = last.next_sibling.replace(Some(child));
            drop(old);
            return;
        }
    }
    let old = parent.first_child.replace(Some(child));
    drop(old);
}

fn plain_prepend(parent: &Rc<Plain>, child: Rc<Plain>) {
    plain_detach(&child);
    *child.parent.borrow_mut() = Some(Rc::downgrade(parent));
    let first = parent.first_child.borrow_mut().take();
    if let Some(first) = first {
        *first.previous_sibling.borrow_mut() = Some(Rc::downgrade(&child));
        let old = child.next_sibling.replace(Some(first));
        drop(old);
    } else {
        *parent.last_child.borrow_mut() = Some(Rc::downgrade(&child));
    }
    let old = parent.first_child.replace(Some(child));
    drop(old);
}

fn plain_insert_after(node: &Rc<Plain>, sibling: Rc<Plain>) {
    plain_detach(&sibling);
    let parent = node.parent.borrow().clone();
    *sibling.parent.borrow_mut() = parent;
    *sibling.previous_sibling.borrow_mut() = Some(Rc::downgrade(node));
    let next = node.next_sibling.borrow_mut().take();
    if let Some(next) = next {
        *next.previous_sibling.borrow_mut() = Some(Rc::downgrade(&sibling));
        let old = sibling.next_sibling.replace(Some(next));
        drop(old);
    } else if let Some(parent) = up(&node.parent) {
        *parent.last_child.borrow_mut() = Some(Rc::downgrade(&sibling));
    }
    let old = node.next_sibling.replace(Some(sibling));
    drop(old);
}

fn plain_insert_before(node: &Rc<Plain>, sibling: Rc<Plain>) {
    plain_detach(&sibling);
    let parent = node.parent.borrow().clone();
    *sibling.parent.borrow_mut() = parent;
    let old = sibling.next_sibling.replace(Some(node.clone()));
    drop(old);
    let previous_weak = node.previous_sibling.replace(Some(Rc::downgrade(&sibling)));
    if let Some(previous_weak) = previous_weak {
        if let Some(previous) = previous_weak.upgrade() {
            *sibling.previous_sibling.borrow_mut() = Some(previous_weak);
            let old = previous.next_sibling.replace(Some(sibling));
            drop(old);
            return;
        }
    }
    if let Some(parent) = up(&node.parent) {
        let old = parent.first_child.replace(Some(sibling));
        drop(old);
    }
}

struct Random(u64);

impl Random {
    fn next(&mut self, bound: usize) -> usize {
        self.0 = self.0.wrapping_mul(6364136223846793005).wrapping_add(1442695040888963407);
        ((self.0 >> 33) as usize) % bound
    }
}

struct World {
    arena: Arena,
    ids: Vec<NodeId>,
    weak: Vec<Weak<Plain>>,
    held: Vec<Option<(NodeRef, Rc<Plain>)>>,
}

fn label_of(found: Option<Rc<Plain>>) -> Option<usize> {
    found.map(|node| node.label)
}

impl World {
    fn label(&self, id: Option<NodeId>) -> Option<usize> {
        id.map(|id| self.ids.iter().position(|known| *known == id).unwrap())
    }

    fn compare(&self, step: usize) {
        for label in 0..self.ids.len() {
            let alive = self.weak[label].upgrade();
            assert_eq!(self.arena.contains(self.ids[label]), alive.is_some(), "step {step}, node {label} alive");
            if let Some(plain) = alive {
                let node = self.arena.node(self.ids[label]);
                assert_eq!(self.label(node.parent(&self.arena)), label_of(up(&plain.parent)), "step {step}, parent of {label}");
                assert_eq!(
                    self.label(node.previous_sibling(&self.arena)),
                    label_of(up(&plain.previous_sibling)),
                    "step {step}, previous sibling of {label}"
                );
                assert_eq!(
                    self.label(node.last_child(&self.arena)),
                    label_of(up(&plain.last_child)),
                    "step {step}, last child of {label}"
                );
                assert_eq!(
                    self.label(node.next_sibling(&self.arena)),
                    label_of(plain.next_sibling.borrow().clone()),
                    "step {step}, next sibling of {label}"
                );
                assert_eq!(
                    self.label(node.first_child(&self.arena)),
                    label_of(plain.first_child.borrow().clone()),
                    "step {step}, first child of {label}"
                );
            }
        }
    }

    /// Whether putting `moved` below or beside `place` would put a node under itself.
    fn would_loop(&self, place: usize, moved: usize) -> bool {
        let mut at = Some(self.ids[place]);
        let mut steps = 0;
        while let Some(id) = at {
            if id == self.ids[moved] {
                return true;
            }
            at = self.arena.node(id).parent(&self.arena);
            steps += 1;
            if steps > self.ids.len() {
                return true;
            }
        }
        false
    }

    fn held_labels(&self) -> Vec<usize> {
        (0..self.held.len()).filter(|label| self.held[*label].is_some()).collect()
    }
}

fn run(seed: u64, steps: usize, allow_loops: bool) {
    let mut random = Random(seed);
    let mut world = World { arena: Arena::new(), ids: Vec::new(), weak: Vec::new(), held: Vec::new() };
    for step in 0..steps {
        let held = world.held_labels();
        let choice = random.next(10);
        if choice < 2 || held.len() < 2 {
            let label = world.ids.len();
            let node = NodeRef::new_text(&mut world.arena, format!("{}", label));
            let twin = plain(label);
            world.ids.push(node.id());
            world.weak.push(Rc::downgrade(&twin));
            world.held.push(Some((node, twin)));
        } else if choice == 2 {
            let label = held[random.next(held.len())];
            let (node, twin) = world.held[label].take().unwrap();
            node.release(&mut world.arena);
            drop(twin);
        } else if choice == 3 {
            let label = held[random.next(held.len())];
            let (node, twin) = world.held[label].as_ref().unwrap();
            node.detach(&mut world.arena);
            plain_detach(twin);
        } else if choice == 4 {
            // take up a handle to a living node again
            let label = random.next(world.ids.len());
            if world.held[label].is_none() {
                if let Some(twin) = world.weak[label].upgrade() {
                    let node = NodeRef::upgrade(&mut world.arena, world.ids[label]).unwrap();
                    world.held[label] = Some((node, twin));
                }
            }
        } else {
            let place = held[random.next(held.len())];
            let moved = held[random.next(held.len())];
            if place == moved {
                continue;
            }
            if !allow_loops && world.would_loop(place, moved) {
                continue;
            }
            let keep = random.next(3) > 0;
            let (moved_node, moved_twin) = if keep {
                let (node, twin) = world.held[moved].as_ref().unwrap();
                (node.duplicate(&mut world.arena), twin.clone())
            } else {
                world.held[moved].take().unwrap()
            };
            let (place_node, place_twin) = world.held[place].as_ref().unwrap();
            match choice {
                5 | 6 => {
                    place_node.append(&mut world.arena, moved_node);
                    plain_append(place_twin, moved_twin);
                }
                7 => {
                    place_node.prepend(&mut world.arena, moved_node);
                    plain_prepend(place_twin, moved_twin);
                }
                8 => {
                    place_node.insert_after(&mut world.arena, moved_node);
                    plain_insert_after(place_twin, moved_twin);
                }
                _ => {
                    place_node.insert_before(&mut world.arena, moved_node);
                    plain_insert_before(place_twin, moved_twin);
                }
            }
        }
        world.compare(step);
    }
}

#[test]
fn random_trees_agree_with_counted_pointers() {
    for seed in 0..200 {
        run(seed, 300, false);
    }
}

#[test]
fn random_graphs_with_loops_agree_with_counted_pointers() {
    for seed in 1000..1100 {
        run(seed, 200, true);
    }
}
