# box_packing

A verified 3D bin-packing planner for a warehouse service, written in Verus.
Given an order, the product catalogue and the boxes in stock, it plans which
boxes to use and where each product instance goes, step by step.

Layout:

- `src/` — the verified library.
  - `geometry` — dimensions, positions, orientations, free spaces and how a
    free space splits around an occupied region.
  - `sorting`, `text`, `area` — a stable sort, byte-wise text order and
    decimal text, and cell counting over ranges.
  - `catalog` — products, box stock, orders and sessions.
  - `placement` — items, placed items, collision and support tests, and the
    area of a union of rectangles.
  - `container` — open boxes, free-space pruning, contact area and the choice
    of a place inside one box.
  - `packer` — item orders, the choice of an open box or a new box from
    stock, and one greedy pass.
  - `search` — which passes run, how outcomes compare, and the search.
  - `plan` — the plan handed to clients.
  - `intake` — from catalogue records to items, stock and the plan.
  - `account`, `credentials` — users, e-mail and password rules, password
    hashes and sign-in.
- `tests/` — tests run against the compiled library.
- `app/` — the HTTP service: handlers, database access, JSON shapes.
