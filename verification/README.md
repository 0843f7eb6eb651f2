# price_hunter

Price Hunter watches e-commerce listing pages in a real Chrome window, finds
the product grid in the page's HTML, extracts each product's name, price,
link, images and currency, and records every new batch of products as a JSON
capture and in a PocketBase store. Catalogue commands match the scraped
products against canonical products and brands.

## Layout

- `src/` is the library, verified with Verus. Every public function states
  in its contract what it returns; the properties that span several
  functions are public proof functions (`lemma_*`).
  - `dom`, `grid`, `ranking`, `names`, `cards`, `prices`, `size`, `detect`:
    the grid detector, from HTML to products.
  - `delta`, `browse`, `autoscrape`: which products are new, when a page is
    reloaded, when a listing is exhausted.
  - `matching`, `linking`, `brands`, `imports`, `import_rows`, `export`,
    `persist`, `matrix`: the catalogue use cases, each taking the loaded
    rows and returning the writes to make or the layout to fill.
  - `cli`, `config`, `instance`, `capture`, `time`, `http`, `text`,
    `numbers`, `unicode`, `model`, `ports`: supporting pieces.
- `app/` is the program around the library: argument handling, the
  PocketBase client, the browser sessions, files, the price matrix's cells
  (its prices are floating point) and its HTTP server.
- `tests/` runs the library on concrete pages and rows.
