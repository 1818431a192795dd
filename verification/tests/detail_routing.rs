use mcpnr_pnr::block_storage::Direction;
use mcpnr_pnr::detail_routing::{DetailRouter, GridCell, GridCellPosition};
use mcpnr_pnr::routing_2d::RouteId;

type TestResult<T> = Result<T, String>;

fn init(size_x: u32, size_y: u32, size_z: u32) -> DetailRouter {
    DetailRouter::new(size_x, size_y, size_z)
}

fn get_cell(router: &DetailRouter, pos: GridCellPosition) -> TestResult<GridCell> {
    router.get_cell(pos).map(|c| *c).map_err(|e| format!("{:?}", e))
}

fn set_cell(router: &mut DetailRouter, pos: GridCellPosition, c: GridCell) -> TestResult<()> {
    *router.get_cell_mut(pos).map_err(|e| format!("{:?}", e))? = c;
    Ok(())
}

fn assert_connected(
    router: &DetailRouter,
    driver: GridCellPosition,
    sink: GridCellPosition,
    sink_direction: Direction,
    route: RouteId,
) -> TestResult<Vec<GridCellPosition>> {
    let mut pathway = Vec::new();
    let mut pos = sink.offset(sink_direction);
    while pos != driver {
        if pathway.contains(&pos) {
            return Err(format!("Pathway loop detected: {:?} in {:?}", pos, pathway));
        }

        if let GridCell::Occupied(d, grid_route) = get_cell(router, pos)? {
            if grid_route != route {
                return Err("Grid pointed to a different route".to_string());
            }
            pathway.push(pos);
            pos = pos.offset(d);
        } else {
            return Err("Grid pointed to something other than another occupied cell".to_string());
        }
    }

    Ok(pathway)
}

fn test_routing_and_suffixes(
    router: &mut DetailRouter,
    driver: GridCellPosition,
    driver_direction: Direction,
    sink: GridCellPosition,
    sink_direction: Direction,
    route: RouteId,
) -> TestResult<()> {
    router
        .route(driver, driver_direction, sink, sink_direction, route)
        .map_err(|e| format!("{:?}", e))?;

    let pathway = assert_connected(router, driver, sink, sink_direction, route)?;

    for i in 2..pathway.len() {
        for j in 1..i {
            set_cell(router, pathway[j], GridCell::Free)?;
        }

        router
            .route(driver, driver_direction, sink, sink_direction, route)
            .map_err(|e| format!("{:?}", e))?;

        let _ = assert_connected(router, driver, sink, sink_direction, route)?;
    }

    Ok(())
}

fn pin_pairs() -> (
    [(GridCellPosition, Direction, RouteId); 4],
    [(GridCellPosition, Direction, RouteId); 4],
) {
    let drivers: [(GridCellPosition, Direction, RouteId); 4] = [
        (GridCellPosition::new(0.into(), 0, 0.into()), Direction::North, RouteId(0)),
        (GridCellPosition::new(0.into(), 0, 4.into()), Direction::South, RouteId(0)),
        (GridCellPosition::new(0.into(), 0, 0.into()), Direction::West, RouteId(0)),
        (GridCellPosition::new(4.into(), 0, 0.into()), Direction::East, RouteId(0)),
    ];

    let sinks: [(GridCellPosition, Direction, RouteId); 4] = [
        (GridCellPosition::new(0.into(), 0, 4.into()), Direction::North, RouteId(0)),
        (GridCellPosition::new(0.into(), 0, 0.into()), Direction::South, RouteId(0)),
        (GridCellPosition::new(4.into(), 0, 0.into()), Direction::West, RouteId(0)),
        (GridCellPosition::new(0.into(), 0, 0.into()), Direction::East, RouteId(0)),
    ];
    (drivers, sinks)
}

#[test]
pub fn tests_it_can_route_straight_lines() -> TestResult<()> {
    let mut router = init(5, 5, 5);

    let (drivers, sinks) = pin_pairs();

    for i in 0..sinks.len() {
        router.rip_up(RouteId(0)).map_err(|e| format!("{:?}", e))?;

        let driver = drivers[i];
        let sink = sinks[i];

        set_cell(&mut router, driver.0, GridCell::Blocked)?;
        set_cell(&mut router, sink.0, GridCell::Blocked)?;

        test_routing_and_suffixes(&mut router, driver.0, driver.1, sink.0, sink.1, RouteId(0))?;
    }

    Ok(())
}

#[test]
pub fn it_can_route_across_layers() -> TestResult<()> {
    let mut router = init(5, 5, 5);

    let (drivers, sinks) = pin_pairs();

    // Add some hills.
    set_cell(&mut router, GridCellPosition::new(2.into(), 0, 0.into()), GridCell::Occupied(Direction::Up, RouteId(2)))?;
    set_cell(&mut router, GridCellPosition::new(2.into(), 0, 4.into()), GridCell::Occupied(Direction::Up, RouteId(2)))?;
    set_cell(&mut router, GridCellPosition::new(0.into(), 0, 2.into()), GridCell::Occupied(Direction::Up, RouteId(2)))?;
    set_cell(&mut router, GridCellPosition::new(4.into(), 0, 2.into()), GridCell::Occupied(Direction::Up, RouteId(2)))?;

    for x in 1..=3 {
        for z in 1..=3 {
            set_cell(&mut router, GridCellPosition::new(x.into(), 0, z.into()), GridCell::Occupied(Direction::Up, RouteId(2)))?;
        }
    }

    for i in 0..sinks.len() {
        router.rip_up(RouteId(0)).map_err(|e| format!("{:?}", e))?;

        let driver = drivers[i];
        let sink = sinks[i];

        set_cell(&mut router, driver.0, GridCell::Blocked)?;
        set_cell(&mut router, sink.0, GridCell::Blocked)?;

        test_routing_and_suffixes(&mut router, driver.0, driver.1, sink.0, sink.1, RouteId(0))?;
    }

    Ok(())
}

fn wall_at_z2(router: &mut DetailRouter, open_x: Option<i32>) -> TestResult<()> {
    for x in 0..5 {
        if Some(x) == open_x {
            continue;
        }
        for y in 0..5 {
            set_cell(router, GridCellPosition::new(x, y, 2), GridCell::Blocked)?;
        }
    }
    Ok(())
}

#[test]
fn route_fails_when_a_wall_separates_the_pins() -> TestResult<()> {
    let mut router = init(5, 5, 5);
    let driver = GridCellPosition::new(0, 0, 0);
    let sink = GridCellPosition::new(0, 0, 4);
    set_cell(&mut router, driver, GridCell::Blocked)?;
    set_cell(&mut router, sink, GridCell::Blocked)?;
    wall_at_z2(&mut router, None)?;
    let r = router.route(driver, Direction::North, sink, Direction::North, RouteId(0));
    assert!(matches!(r, Err(mcpnr_pnr::detail_routing::RoutingError::Unroutable)));
    // The cell in front of the driver was given to the net.
    assert_eq!(get_cell(&router, GridCellPosition::new(0, 0, 1))?, GridCell::Occupied(Direction::North, RouteId(0)));
    Ok(())
}

#[test]
fn route_goes_around_a_wall_with_a_gap() -> TestResult<()> {
    let mut router = init(5, 5, 5);
    let driver = GridCellPosition::new(0, 0, 0);
    let sink = GridCellPosition::new(0, 0, 4);
    set_cell(&mut router, driver, GridCell::Blocked)?;
    set_cell(&mut router, sink, GridCell::Blocked)?;
    // The search stays within two cells of the pins, so the gap is at x = 1.
    wall_at_z2(&mut router, Some(1))?;
    router
        .route(driver, Direction::North, sink, Direction::North, RouteId(0))
        .map_err(|e| format!("{:?}", e))?;
    let pathway = assert_connected(&router, driver, sink, Direction::North, RouteId(0))?;
    assert!(pathway.iter().any(|p| p.x == 1 && p.z == 2));
    Ok(())
}

#[test]
fn route_fails_when_the_cell_in_front_of_the_sink_is_taken() -> TestResult<()> {
    let mut router = init(5, 5, 5);
    let driver = GridCellPosition::new(0, 0, 0);
    let sink = GridCellPosition::new(0, 0, 4);
    set_cell(&mut router, driver, GridCell::Blocked)?;
    set_cell(&mut router, sink, GridCell::Blocked)?;
    set_cell(&mut router, GridCellPosition::new(0, 0, 3), GridCell::Occupied(Direction::Up, RouteId(7)))?;
    let r = router.route(driver, Direction::North, sink, Direction::North, RouteId(0));
    assert!(matches!(r, Err(mcpnr_pnr::detail_routing::RoutingError::Unroutable)));
    assert_eq!(get_cell(&router, GridCellPosition::new(0, 0, 3))?, GridCell::Occupied(Direction::Up, RouteId(7)));
    Ok(())
}

#[test]
fn route_reports_a_pin_front_off_the_grid() {
    let mut router = init(5, 5, 5);
    let driver = GridCellPosition::new(0, 0, 0);
    let sink = GridCellPosition::new(0, 0, 4);
    // The cell in front of the driver is at z = -1.
    let r = router.route(driver, Direction::South, sink, Direction::North, RouteId(0));
    assert!(matches!(r, Err(mcpnr_pnr::detail_routing::RoutingError::OutOfBounds { .. })));
}

#[test]
fn route_then_rip_up_frees_every_cell_it_took() -> TestResult<()> {
    let mut router = init(5, 5, 5);
    let driver = GridCellPosition::new(0, 0, 0);
    let sink = GridCellPosition::new(0, 0, 4);
    set_cell(&mut router, driver, GridCell::Blocked)?;
    set_cell(&mut router, sink, GridCell::Blocked)?;
    let other = GridCellPosition::new(3, 1, 3);
    set_cell(&mut router, other, GridCell::Occupied(Direction::East, RouteId(5)))?;
    router
        .route(driver, Direction::North, sink, Direction::North, RouteId(0))
        .map_err(|e| format!("{:?}", e))?;
    router.rip_up(RouteId(0)).map_err(|e| format!("{:?}", e))?;
    for x in 0..5 {
        for y in 0..5 {
            for z in 0..5 {
                let p = GridCellPosition::new(x, y, z);
                let expected = if p == driver || p == sink {
                    GridCell::Blocked
                } else if p == other {
                    GridCell::Occupied(Direction::East, RouteId(5))
                } else {
                    GridCell::Free
                };
                assert_eq!(get_cell(&router, p)?, expected);
            }
        }
    }
    Ok(())
}

#[test]
fn straight_route_marks_exactly_the_straight_run() -> TestResult<()> {
    let mut router = init(5, 5, 5);
    let driver = GridCellPosition::new(0, 0, 0);
    let sink = GridCellPosition::new(0, 0, 4);
    set_cell(&mut router, driver, GridCell::Blocked)?;
    set_cell(&mut router, sink, GridCell::Blocked)?;
    router
        .route(driver, Direction::North, sink, Direction::North, RouteId(0))
        .map_err(|e| format!("{:?}", e))?;
    for x in 0..5 {
        for y in 0..5 {
            for z in 0..5 {
                let p = GridCellPosition::new(x, y, z);
                let expected = if p == driver || p == sink {
                    GridCell::Blocked
                } else if x == 0 && y == 0 {
                    GridCell::Occupied(Direction::North, RouteId(0))
                } else {
                    GridCell::Free
                };
                assert_eq!(get_cell(&router, p)?, expected);
            }
        }
    }
    Ok(())
}

#[test]
fn unroutable_route_only_takes_the_driver_front_cell() -> TestResult<()> {
    let mut router = init(5, 5, 5);
    let driver = GridCellPosition::new(0, 0, 0);
    let sink = GridCellPosition::new(0, 0, 4);
    set_cell(&mut router, driver, GridCell::Blocked)?;
    set_cell(&mut router, sink, GridCell::Blocked)?;
    set_cell(&mut router, GridCellPosition::new(0, 0, 3), GridCell::Occupied(Direction::Up, RouteId(7)))?;
    let r = router.route(driver, Direction::North, sink, Direction::North, RouteId(0));
    assert!(matches!(r, Err(mcpnr_pnr::detail_routing::RoutingError::Unroutable)));
    for x in 0..5 {
        for y in 0..5 {
            for z in 0..5 {
                let p = GridCellPosition::new(x, y, z);
                let expected = if p == driver || p == sink {
                    GridCell::Blocked
                } else if p == GridCellPosition::new(0, 0, 3) {
                    GridCell::Occupied(Direction::Up, RouteId(7))
                } else if p == GridCellPosition::new(0, 0, 1) {
                    GridCell::Occupied(Direction::North, RouteId(0))
                } else {
                    GridCell::Free
                };
                assert_eq!(get_cell(&router, p)?, expected);
            }
        }
    }
    Ok(())
}

#[test]
fn backtrack_follows_the_lowest_neighbour_score() -> TestResult<()> {
    // The search reaches the driver's front cell (3, 0, 1) most cheaply along layer 0, but the
    // backtrack steps to the neighbour with the lowest score, which is the one above it on
    // layer 1; the walk marked is therefore the dearer one through layer 1.
    let mut router = init(5, 5, 5);
    let driver = GridCellPosition::new(3, 0, 2);
    let sink = GridCellPosition::new(0, 1, 1);
    set_cell(&mut router, driver, GridCell::Blocked)?;
    set_cell(&mut router, sink, GridCell::Blocked)?;
    set_cell(&mut router, GridCellPosition::new(2, 1, 1), GridCell::Blocked)?;
    router
        .route(driver, Direction::South, sink, Direction::East, RouteId(0))
        .map_err(|e| format!("{:?}", e))?;
    assert_eq!(get_cell(&router, GridCellPosition::new(3, 1, 1))?, GridCell::Occupied(Direction::Down, RouteId(0)));
    assert_eq!(get_cell(&router, GridCellPosition::new(2, 0, 1))?, GridCell::Free);
    let _ = assert_connected(&router, driver, sink, Direction::East, RouteId(0))?;
    Ok(())
}

#[test]
fn sink_in_front_of_a_connected_chain_needs_nothing() -> TestResult<()> {
    let mut router = init(5, 5, 5);
    let driver = GridCellPosition::new(0, 0, 4);
    let sink = GridCellPosition::new(1, 0, 2);
    set_cell(&mut router, driver, GridCell::Blocked)?;
    set_cell(&mut router, sink, GridCell::Blocked)?;
    for z in 1..4 {
        set_cell(&mut router, GridCellPosition::new(0, 0, z), GridCell::Occupied(Direction::South, RouteId(0)))?;
    }
    router
        .route(driver, Direction::South, sink, Direction::West, RouteId(0))
        .map_err(|e| format!("{:?}", e))?;
    for x in 0..5 {
        for y in 0..5 {
            for z in 0..5 {
                let p = GridCellPosition::new(x, y, z);
                let expected = if p == driver || p == sink {
                    GridCell::Blocked
                } else if x == 0 && y == 0 && (1..4).contains(&z) {
                    GridCell::Occupied(Direction::South, RouteId(0))
                } else {
                    GridCell::Free
                };
                assert_eq!(get_cell(&router, p)?, expected);
            }
        }
    }
    let _ = assert_connected(&router, driver, sink, Direction::West, RouteId(0))?;
    Ok(())
}
