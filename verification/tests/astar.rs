use meritrank::astar::{init, iteration, path, Link, Node, Status};

#[test]
fn path_exists()
{
  let graph: Vec<((i64, i64), i64)> = vec![
    ((0, 1), 5),
    ((0, 2), 3),
    ((1, 3), 4),
    ((2, 4), 1),
    ((3, 5), 10),
    ((4, 6), 1),
    ((6, 7), 1),
    ((7, 5), 1),
  ];

  let get_neighbor = |id: i64, index: usize| -> Option<Link<i64, i64>> {
    let mut k: usize = 0;
    for ((src, dst), cost) in graph.clone() {
      if src == id {
        if k == index {
          return Some(Link::<i64, i64> {
            neighbor:       dst,
            exact_distance: cost,
            estimate:       (8 - dst).abs(),
          });
        } else {
          k += 1;
        }
      }
    }
    return None;
  };

  let mut open: Vec<Node<i64, i64>> = vec![];
  let mut closed: Vec<Node<i64, i64>> = vec![];

  open.resize(1024, Node::default());
  closed.resize(1024, Node::default());

  let mut state = init(&mut open, 0i64, 5i64, i64::MAX);

  let mut steps = 0;
  let mut neighbor = None;
  loop {
    steps += 1;

    match iteration(&mut open, &mut closed, &mut state, neighbor.clone()) {
      Status::NEIGHBOR(request) => neighbor = get_neighbor(request.node, request.index),
      Status::SUCCESS => break,
      Status::PROGRESS => {},
      _ => assert!(false),
    };
  }

  let mut v: Vec<i64> = vec![];
  v.resize(state.num_closed, 0);
  let n = path(&closed, &state, &mut v);
  v.resize(n, 0);

  assert_eq!(steps, 15);
  assert_eq!(v.len(), 6);
  assert_eq!(v[0], 0);
  assert_eq!(v[1], 2);
  assert_eq!(v[2], 4);
  assert_eq!(v[3], 6);
  assert_eq!(v[4], 7);
  assert_eq!(v[5], 5);
}

#[test]
fn out_of_memory()
{
  let graph: Vec<((i64, i64), i64)> = vec![
    ((0, 1), 5),
    ((0, 2), 3),
    ((1, 3), 4),
    ((2, 4), 1),
    ((3, 5), 10),
    ((4, 6), 1),
    ((6, 7), 1),
    ((7, 5), 1),
  ];

  let get_neighbor = |id: i64, index: usize| -> Option<Link<i64, i64>> {
    let mut k: usize = 0;
    for ((src, dst), cost) in graph.clone() {
      if src == id {
        if k == index {
          return Some(Link::<i64, i64> {
            neighbor:       dst,
            exact_distance: cost,
            estimate:       (8 - dst).abs(),
          });
        } else {
          k += 1;
        }
      }
    }
    return None;
  };

  let mut open: Vec<Node<i64, i64>> = vec![Node::default()];
  let mut closed: Vec<Node<i64, i64>> = vec![];

  let mut state = init(&mut open, 0i64, 5i64, i64::MAX);

  let mut steps = 0;
  let mut neighbor = None;
  loop {
    steps += 1;

    match iteration(&mut open, &mut closed, &mut state, neighbor.clone()) {
      Status::NEIGHBOR(request) => neighbor = get_neighbor(request.node, request.index),
      Status::SUCCESS => break,
      Status::PROGRESS => {},
      Status::OUT_OF_MEMORY => {
        open.resize(open.len() + 1024, Node::default());
        closed.resize(closed.len() + 1024, Node::default());
      },
      _ => assert!(false),
    };
  }

  let mut v: Vec<i64> = vec![];
  v.resize(state.num_closed, 0);
  let n = path(&closed, &state, &mut v);
  v.resize(n, 0);

  assert_eq!(steps, 16);
  assert_eq!(v.len(), 6);
  assert_eq!(v[0], 0);
  assert_eq!(v[1], 2);
  assert_eq!(v[2], 4);
  assert_eq!(v[3], 6);
  assert_eq!(v[4], 7);
  assert_eq!(v[5], 5);
}

#[test]
fn path_does_not_exist()
{
  let graph: Vec<((i64, i64), i64)> = vec![
    ((0, 1), 5),
    ((0, 2), 3),
    ((1, 3), 4),
    ((2, 4), 1),
    ((3, 5), 1),
    ((4, 6), 10),
    ((6, 7), 1),
    ((7, 5), 1),
  ];

  let get_neighbor = |id: i64, index: usize| -> Option<Link<i64, i64>> {
    let mut k: usize = 0;
    for ((src, dst), cost) in graph.clone() {
      if src == id {
        if k == index {
          return Some(Link::<i64, i64> {
            neighbor:       dst,
            exact_distance: cost,
            estimate:       (15 - dst).abs(),
          });
        } else {
          k += 1;
        }
      }
    }
    return None;
  };

  let mut open: Vec<Node<i64, i64>> = vec![];
  let mut closed: Vec<Node<i64, i64>> = vec![];

  open.resize(1024, Node::default());
  closed.resize(1024, Node::default());

  let mut state = init(&mut open, 0i64, 15i64, i64::MAX);

  let mut steps = 0;
  let mut neighbor = None;
  loop {
    steps += 1;

    match iteration(&mut open, &mut closed, &mut state, neighbor.clone()) {
      Status::NEIGHBOR(request) => neighbor = get_neighbor(request.node, request.index),
      Status::FAIL => break,
      Status::PROGRESS => {},
      _ => assert!(false),
    };
  }

  let mut v: Vec<i64> = vec![];
  v.resize(state.num_closed, 0);
  let n = path(&closed, &state, &mut v);
  v.resize(n, 0);

  assert_eq!(steps, 25);
  assert_eq!(v.len(), 5);
  assert_eq!(v[0], 0);
  assert_eq!(v[1], 2);
  assert_eq!(v[2], 4);
  assert_eq!(v[3], 6);
  assert_eq!(v[4], 7);
}

#[test]
fn empty_path()
{
  let graph: Vec<((i64, i64), i64)> = vec![
    ((0, 1), 5),
    ((0, 2), 3),
    ((1, 3), 4),
    ((2, 4), 1),
    ((3, 5), 1),
    ((4, 6), 10),
    ((6, 7), 1),
    ((7, 5), 1),
  ];

  let get_neighbor = |id: i64, index: usize| -> Option<Link<i64, i64>> {
    let mut k: usize = 0;
    for ((src, dst), cost) in graph.clone() {
      if src == id {
        if k == index {
          return Some(Link::<i64, i64> {
            neighbor:       dst,
            exact_distance: cost,
            estimate:       (2 - dst).abs(),
          });
        } else {
          k += 1;
        }
      }
    }
    return None;
  };

  let mut open: Vec<Node<i64, i64>> = vec![];
  let mut closed: Vec<Node<i64, i64>> = vec![];

  open.resize(1024, Node::default());
  closed.resize(1024, Node::default());

  let mut state = init(&mut open, 2i64, 2i64, i64::MAX);

  let mut steps = 0;
  let mut neighbor = None;
  loop {
    steps += 1;

    match iteration(&mut open, &mut closed, &mut state, neighbor.clone()) {
      Status::NEIGHBOR(request) => neighbor = get_neighbor(request.node, request.index),
      Status::SUCCESS => break,
      Status::PROGRESS => {},
      _ => assert!(false),
    };
  }

  let mut v: Vec<i64> = vec![];
  v.resize(state.num_closed, 0);
  let n = path(&closed, &state, &mut v);
  v.resize(n, 0);

  assert_eq!(steps, 1);
  assert_eq!(v.len(), 1);
  assert_eq!(v[0], 2);
}

#[test]
fn cyclic()
{
  let graph: Vec<((i64, i64), i64)> = vec![
    ((0, 1), 10),
    ((0, 2), 3),
    ((1, 3), 20),
    ((2, 4), 1),
    ((3, 5), 1),
    ((4, 6), 10),
    ((6, 7), 1),
    ((7, 5), 1),
    ((7, 0), 5),
    ((5, 1), 5),
    ((6, 2), 5),
  ];

  let get_neighbor = |id: i64, index: usize| -> Option<Link<i64, i64>> {
    let mut k: usize = 0;
    for ((src, dst), cost) in graph.clone() {
      if src == id {
        if k == index {
          return Some(Link::<i64, i64> {
            neighbor:       dst,
            exact_distance: cost,
            estimate:       (5 - dst).abs(),
          });
        } else {
          k += 1;
        }
      }
    }
    return None;
  };

  let mut open: Vec<Node<i64, i64>> = vec![];
  let mut closed: Vec<Node<i64, i64>> = vec![];

  open.resize(1024, Node::default());
  closed.resize(1024, Node::default());

  let mut state = init(&mut open, 0i64, 5i64, i64::MAX);

  let mut steps = 0;
  let mut neighbor = None;
  loop {
    steps += 1;

    match iteration(&mut open, &mut closed, &mut state, neighbor.clone()) {
      Status::NEIGHBOR(request) => neighbor = get_neighbor(request.node, request.index),
      Status::SUCCESS => break,
      Status::PROGRESS => {},
      _ => assert!(false),
    };
  }

  let mut v: Vec<i64> = vec![];
  v.resize(state.num_closed, 0);
  let n = path(&closed, &state, &mut v);
  v.resize(n, 0);

  assert_eq!(steps, 19);
  assert_eq!(v.len(), 6);
  assert_eq!(v[0], 0);
  assert_eq!(v[1], 2);
  assert_eq!(v[2], 4);
  assert_eq!(v[3], 6);
  assert_eq!(v[4], 7);
  assert_eq!(v[5], 5);
}

#[test]
fn path_stops_before_running_past_the_closed_buffer() {
  let node = |id: i64, previous: Option<i64>| Node { id, previous, exact_distance: 0, estimate: 0, count: 1 };
  // two closed nodes in the buffer, though the count says three
  let closed = vec![node(1, None), node(2, Some(1))];
  let mut state = init(&mut [], 1, 2, 0);
  state.num_closed = 3;
  state.closest_index = 1;
  let mut v = vec![0i64; 4];
  let n = path(&closed, &state, &mut v);
  assert_eq!(n, 2);
  assert_eq!(&v[..2], &[1, 2]);
}
