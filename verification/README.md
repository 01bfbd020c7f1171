# pathfinder

Plans a route for an aircraft around cylindrical obstacles, inside flight
zones, through a list of waypoints.

- `src/` is the verified library. Distances and costs there are integers in
  one fixed unit (the geometry is done outside it):
  - `graph.rs`: the search graph (vertices around obstacle nodes, tangent
    connections, node rings with a header vertex), the linking of a node's
    ring (`link_ring`, which keeps every link inside the arena and every
    header linked onward), and the walks of the graph;
  - `queue.rs`: the open set, handing out vertices by least estimated cost;
  - `search.rs`: the A* search (`a_star`) and the route built from parents
    (`generate_waypoint`). The search first marks the destination vertices it
    does not start at as unreached, at the largest cost. It is proved to
    return a walk from a start vertex to the destination whose step costs add
    up to the cost of its last vertex; when vertex indices are distinct, to
    return a route exactly when the destination can be reached and, with a
    consistent heuristic, a route that costs no more than any other; tangents
    are taken only by vertices above their threshold;
  - `flyzone.rs`: the checks on flight zones (enough corners, no edge crossing
    a non-adjacent edge), taken over each zone's crossing table (symmetric:
    edge `i` crosses edge `j` exactly when `j` crosses `i`, as segments do);
    the verdict does not depend on where or which way round the corners are
    numbered;
  - `pathfinder.rs`: the path finder's time budget, initialisation, vertex
    numbering, and the joining of the routes of successive legs.
- `app/` holds the floating-point side: geographic locations, projection onto
  a plane, edge crossings, tangents between obstacle circles, and the
  `Pathfinder` that drives the library leg by leg.
- `tests/` runs the library on concrete graphs and flight zones.
